//! How the logs of a cluster come to agree: what holds of every node, every message and every
//! entry that was applied, and that no event breaks it.

use crate::agreement::{
    agree, at_least_as_complete, lemma_acked_before, lemma_acked_grown, lemma_agree_at,
    lemma_agree_less, lemma_chosen_grown, lemma_kept_grown, lemma_leader_completeness,
    lemma_logs_step, lemma_same_entry, lemma_settled_grown, lemma_sound_grown, lemma_term_log,
    logs_grow, logs_ok, own_log_ok, rooted, sound_log, term_log_ok, Ack, Log, Logs,
};
use crate::cluster::{
    after, applies, carries, enabled, initial, is_fresh, is_run, outcome, reached, sends,
    Application, Cluster, Envelope, Event,
};
use crate::election::{
    elections_ok, lemma_elections_step, lemma_settled, quorum, stands, vote_message_ok, voter_ok,
    votes_at, votes_ok, votes_term_ok, wins, Turn, Votes,
};
use crate::laws::law_terms_never_fall;
use crate::model::{
    holders, is_majority_index, majority_index, no_op, placeholder, CoreView, Step,
};
use crate::raft::lemma_merged_ignores_clock;
use crate::types::{
    ActionView, AppendEntriesResponseRPC, AppendEntriesView, EntryView, InstallSnapshotView,
    MessageView, RaftState,
};
use vstd::prelude::*;

verus! {

/// Whether a node holds the entries of a log after its snapshot, and the term of the last one that
/// the snapshot covers.
pub open spec fn represents(node: CoreView, log: Log) -> bool {
    &&& log.len() == node.base + node.log.len()
    &&& log[node.base as int].term == node.log[0].term
    &&& forall|i: int| node.base < i < log.len() ==> #[trigger] log[i] == node.log[i - node.base]
}

/// Whether a leader may take it that a peer holds its log up to `index`, as far as entries of its
/// own term go.
pub open spec fn match_ok(
    logs: Logs,
    votes: Votes,
    peer: u64,
    term: u64,
    index: int,
) -> bool {
    &&& 0 <= index < logs.logs[term].len()
    &&& logs.logs[term][index].term < term || logs.acked(votes, peer, term, index)
}

/// What holds of a node and its log.
pub open spec fn node_ok(
    node: CoreView,
    id: u64,
    logs: Logs,
    votes: Votes,
    ids: Set<u64>,
) -> bool {
    let full = logs.full[id];
    let term = node.current_term;
    &&& node.wf()
    &&& represents(node, full)
    &&& sound_log(full, votes, logs.logs)
    &&& full.last().term <= term
    &&& node.state == RaftState::Candidate ==> logs.own[Turn { node: id, term }] == full
    &&& node.state == RaftState::Leader ==> {
        &&& full == logs.logs[term]
        &&& node.match_index.dom() == ids.remove(id)
        &&& forall|peer: u64| #[trigger]
            node.match_index.dom().contains(peer) ==> match_ok(
                logs,
                votes,
                peer,
                term,
                node.match_index[peer] as int,
            )
    }
    &&& node.match_index.dom().subset_of(ids.remove(id))
    &&& forall|earlier: u64, index: int| #[trigger]
        logs.acked(votes, id, earlier, index) ==> earlier <= term && logs.kept(
            votes,
            full,
            earlier,
            index,
            term + 1,
        )
    &&& logs.settled(votes, ids, full, node.commit_index as int, term)
}

/// What holds of entries that a leader sends.
pub open spec fn entries_ok(
    req: AppendEntriesView,
    logs: Logs,
    votes: Votes,
    ids: Set<u64>,
) -> bool {
    let log = logs.logs[req.term];
    let end = req.prev_log_index + 1 + req.entries.len();
    &&& votes.has_led(req.term)
    &&& votes.leader[req.term] == req.leader_id
    &&& end <= log.len()
    &&& log[end - 1].term == req.term
    &&& log[req.prev_log_index as int].term == req.prev_log_term
    &&& forall|i: int|
        0 <= i < req.entries.len() ==> #[trigger] req.entries[i] == log[req.prev_log_index + 1 + i]
    &&& logs.settled(votes, ids, log, req.leader_commit as int, req.term)
}

/// What holds of a snapshot that a node sends: it ends in an entry that has been chosen.
pub open spec fn snapshot_ok(
    req: InstallSnapshotView,
    logs: Logs,
    votes: Votes,
    ids: Set<u64>,
) -> bool {
    let index = req.last_included_index as int;
    ||| index == 0
    ||| exists|earlier: u64, last: int| #[trigger]
        logs.chosen(votes, ids, earlier, last) && earlier <= req.term && index <= last
            && logs.logs[earlier][index].term == req.last_included_term
}

/// Whether what is settled up to `index` was chosen before `term`.
pub open spec fn settled_before(
    logs: Logs,
    votes: Votes,
    ids: Set<u64>,
    index: int,
    term: u64,
) -> bool {
    ||| index == 0
    ||| exists|earlier: u64, last: int| #[trigger]
        logs.chosen(votes, ids, earlier, last) && earlier < term && index <= last
}

/// What holds of a message.
pub open spec fn message_ok(envelope: Envelope, logs: Logs, votes: Votes, ids: Set<u64>) -> bool {
    match envelope.message {
        MessageView::RequestVote(req) => {
            let own = logs.own[Turn { node: req.candidate_id, term: req.term }];
            req.last_log_term == own.last().term && req.last_log_index == own.len() - 1
        },
        MessageView::RequestVoteResponse(_) => true,
        MessageView::AppendEntries(req) => {
            req.leader_id != envelope.to && entries_ok(req, logs, votes, ids)
        },
        MessageView::AppendEntriesResponse(resp) => {
            &&& ids.contains(resp.id)
            &&& resp.id != envelope.to
            &&& resp.success ==> logs.acks.contains(
                Ack { node: resp.id, term: resp.term, index: resp.match_index as int },
            )
        },
        MessageView::InstallSnapshot(req) => {
            req.leader_id != envelope.to && snapshot_ok(req, logs, votes, ids)
        },
        MessageView::InstallSnapshotResponse(resp) => {
            let index = resp.last_included_index as int;
            &&& ids.contains(resp.id)
            &&& resp.id != envelope.to
            &&& logs.acks.contains(Ack { node: resp.id, term: resp.term, index })
                || settled_before(logs, votes, ids, index, resp.term)
        },
    }
}

/// Whether an entry that was applied has been chosen.
pub open spec fn application_ok(
    application: Application,
    logs: Logs,
    votes: Votes,
    ids: Set<u64>,
) -> bool {
    exists|term: u64, last: int| #[trigger]
        logs.chosen(votes, ids, term, last) && 0 <= application.index <= last
            && logs.logs[term][application.index as int].command == application.command
}

/// What holds of a cluster.
#[verifier::opaque]
pub open spec fn cluster_ok(cluster: Cluster, logs: Logs, votes: Votes) -> bool {
    let ids = cluster.nodes.dom();
    &&& elections_ok(cluster, votes)
    &&& logs_ok(logs, votes, ids)
    &&& forall|id: u64| #[trigger]
        ids.contains(id) ==> node_ok(cluster.nodes[id], id, logs, votes, ids)
    &&& forall|envelope: Envelope| #[trigger]
        cluster.sent.contains(envelope) ==> message_ok(envelope, logs, votes, ids)
    &&& forall|application: Application| #[trigger]
        cluster.applied.contains(application) ==> application_ok(application, logs, votes, ids)
}

// --------------------------------------------------------------------------- what stays as it is

proof fn lemma_match_grown(
    logs: Logs,
    votes: Votes,
    next: Logs,
    votes_next: Votes,
    id: u64,
    peer: u64,
    term: u64,
    index: int,
)
    requires
        logs_grow(logs, votes, next, votes_next, id),
        votes.has_led(term),
        match_ok(logs, votes, peer, term, index),
    ensures
        match_ok(next, votes_next, peer, term, index),
{
    if logs.acked(votes, peer, term, index) {
        lemma_acked_grown(logs, votes, next, votes_next, id, peer, term, index);
    }
    lemma_agree_at(logs.logs[term], next.logs[term], logs.logs[term].len() as int, index);
}

/// The other nodes are not affected by what happens at `id`.
proof fn lemma_other_node(
    node: CoreView,
    other: u64,
    logs: Logs,
    votes: Votes,
    next: Logs,
    votes_next: Votes,
    ids: Set<u64>,
    id: u64,
)
    requires
        other != id,
        logs_ok(logs, votes, ids),
        logs_grow(logs, votes, next, votes_next, id),
        voter_ok(node, other, votes, ids),
        node_ok(node, other, logs, votes, ids),
    ensures
        node_ok(node, other, next, votes_next, ids),
{
    let full = logs.full[other];
    let term = node.current_term;
    assert(next.full[other] == full);
    lemma_sound_grown(full, logs, votes, next, votes_next, id);
    if node.state == RaftState::Candidate {
        assert(votes.stood.contains(Turn { node: other, term }));
    }
    if node.state == RaftState::Leader {
        assert(votes.has_led(term));
        assert forall|peer: u64| #[trigger]
            node.match_index.dom().contains(peer) implies match_ok(
            next,
            votes_next,
            peer,
            term,
            node.match_index[peer] as int,
        ) by {
            lemma_match_grown(
                logs,
                votes,
                next,
                votes_next,
                id,
                peer,
                term,
                node.match_index[peer] as int,
            );
        }
    }
    assert forall|earlier: u64, index: int| #[trigger]
        next.acked(votes_next, other, earlier, index) implies earlier <= term && next.kept(
        votes_next,
        full,
        earlier,
        index,
        term + 1,
    ) by {
        lemma_acked_before(logs, votes, next, votes_next, ids, id, other, earlier, index);
        lemma_kept_grown(
            full,
            logs,
            votes,
            next,
            votes_next,
            ids,
            id,
            earlier,
            index,
            term + 1,
        );
    }
    lemma_settled_grown(
        full,
        logs,
        votes,
        next,
        votes_next,
        ids,
        id,
        node.commit_index as int,
        term,
        term,
    );
}

/// What a leader has settled stays settled in its log.
proof fn lemma_leader_settled_grown(
    logs: Logs,
    votes: Votes,
    next: Logs,
    votes_next: Votes,
    ids: Set<u64>,
    id: u64,
    term: u64,
    index: int,
)
    requires
        logs_grow(logs, votes, next, votes_next, id),
        votes.has_led(term),
        logs.settled(votes, ids, logs.logs[term], index, term),
    ensures
        next.settled(votes_next, ids, next.logs[term], index, term),
{
    if index != 0 {
        let (earlier, last) = choose|earlier: u64, last: int| #[trigger]
            logs.chosen(votes, ids, earlier, last) && earlier <= term && index <= last && agree(
                logs.logs[term],
                logs.logs[earlier],
                index + 1,
            );
        lemma_chosen_grown(logs, votes, next, votes_next, ids, id, earlier, last);
        lemma_agree_less(
            logs.logs[term],
            next.logs[term],
            logs.logs[term].len() as int,
            index + 1,
        );
        lemma_agree_less(
            logs.logs[earlier],
            next.logs[earlier],
            logs.logs[earlier].len() as int,
            index + 1,
        );
    }
}

proof fn lemma_message_grown(
    envelope: Envelope,
    logs: Logs,
    votes: Votes,
    next: Logs,
    votes_next: Votes,
    ids: Set<u64>,
    id: u64,
)
    requires
        logs_ok(logs, votes, ids),
        logs_grow(logs, votes, next, votes_next, id),
        vote_message_ok(envelope, votes, ids),
        message_ok(envelope, logs, votes, ids),
    ensures
        message_ok(envelope, next, votes_next, ids),
{
    match envelope.message {
        MessageView::AppendEntries(req) => {
            let old_log = logs.logs[req.term];
            let new_log = next.logs[req.term];
            let len = old_log.len() as int;
            let end = req.prev_log_index + 1 + req.entries.len();
            assert(votes.has_led(req.term));
            assert(votes_next.has_led(req.term));
            lemma_agree_at(old_log, new_log, len, end - 1);
            lemma_agree_at(old_log, new_log, len, req.prev_log_index as int);
            assert forall|i: int| 0 <= i < req.entries.len() implies #[trigger] req.entries[i]
                == new_log[req.prev_log_index + 1 + i] by {
                lemma_agree_at(old_log, new_log, len, req.prev_log_index + 1 + i);
            }
            lemma_leader_settled_grown(
                logs,
                votes,
                next,
                votes_next,
                ids,
                id,
                req.term,
                req.leader_commit as int,
            );
        },
        MessageView::InstallSnapshot(req) => {
            let index = req.last_included_index as int;
            if index != 0 {
                let (earlier, last) = choose|earlier: u64, last: int| #[trigger]
                    logs.chosen(votes, ids, earlier, last) && earlier <= req.term && index <= last
                        && logs.logs[earlier][index].term == req.last_included_term;
                lemma_chosen_grown(logs, votes, next, votes_next, ids, id, earlier, last);
                lemma_agree_at(
                    logs.logs[earlier],
                    next.logs[earlier],
                    logs.logs[earlier].len() as int,
                    index,
                );
            }
        },
        MessageView::InstallSnapshotResponse(resp) => {
            let index = resp.last_included_index as int;
            if !logs.acks.contains(Ack { node: resp.id, term: resp.term, index }) && index != 0 {
                let (earlier, last) = choose|earlier: u64, last: int| #[trigger]
                    logs.chosen(votes, ids, earlier, last) && earlier < resp.term && index <= last;
                lemma_chosen_grown(logs, votes, next, votes_next, ids, id, earlier, last);
            }
        },
        _ => {},
    }
}

proof fn lemma_application_grown(
    application: Application,
    logs: Logs,
    votes: Votes,
    next: Logs,
    votes_next: Votes,
    ids: Set<u64>,
    id: u64,
)
    requires
        logs_grow(logs, votes, next, votes_next, id),
        application_ok(application, logs, votes, ids),
    ensures
        application_ok(application, next, votes_next, ids),
{
    let index = application.index as int;
    let (term, last) = choose|term: u64, last: int| #[trigger]
        logs.chosen(votes, ids, term, last) && 0 <= index <= last
            && logs.logs[term][index].command == application.command;
    lemma_chosen_grown(logs, votes, next, votes_next, ids, id, term, last);
    lemma_agree_at(logs.logs[term], next.logs[term], logs.logs[term].len() as int, index);
}

/// What a step of a node has to show: it adds to the logs in keeping with what holds of them, the
/// node is in order, and so is all that it sends and applies.
pub open spec fn step_ok(
    id: u64,
    step: Step,
    logs: Logs,
    votes: Votes,
    next: Logs,
    votes_next: Votes,
    ids: Set<u64>,
) -> bool {
    &&& logs_grow(logs, votes, next, votes_next, id)
    &&& logs_ok(next, votes_next, ids)
    &&& forall|ack: Ack| #[trigger]
        next.acks.contains(ack) ==> logs.acks.contains(ack) || ack.term == step.state.current_term
    &&& node_ok(step.state, id, next, votes_next, ids)
    &&& forall|envelope: Envelope| #[trigger]
        sends(id, step.actions, envelope) ==> message_ok(envelope, next, votes_next, ids)
    &&& forall|application: Application| #[trigger]
        applies(step.actions, application) ==> application_ok(application, next, votes_next, ids)
}

/// What an event has to show.
pub open spec fn event_ok(
    cluster: Cluster,
    event: Event,
    logs: Logs,
    votes: Votes,
    next: Logs,
) -> bool {
    let node = cluster.nodes[event.node()];
    let step = outcome(node, event);
    step_ok(
        event.node(),
        step,
        logs,
        votes,
        next,
        votes.extended(event, node, step.state),
        cluster.nodes.dom(),
    )
}

/// What holds where an event happens.
pub open spec fn site_ok(node: CoreView, logs: Logs, votes: Votes, ids: Set<u64>) -> bool {
    &&& ids.finite()
    &&& votes_ok(votes, ids)
    &&& logs_ok(logs, votes, ids)
    &&& voter_ok(node, node.id, votes, ids)
    &&& node_ok(node, node.id, logs, votes, ids)
}

/// A step as its driver carries it out is in order if the bare step is.
proof fn lemma_settle(
    step: Step,
    logs: Logs,
    votes: Votes,
    next: Logs,
    votes_next: Votes,
    ids: Set<u64>,
)
    requires
        step_ok(step.state.id, step, logs, votes, next, votes_next, ids),
    ensures
        step_ok(step.state.id, step.settled(), logs, votes, next, votes_next, ids),
{
    lemma_settled(step, step.state.id);
    lemma_steady_node(
        step.state,
        step.settled().state,
        step.state.id,
        next,
        votes_next,
        ids,
    );
}

/// An event that does so leads to a cluster in order.
proof fn lemma_close(
    cluster: Cluster,
    event: Event,
    logs: Logs,
    votes: Votes,
    next: Logs,
)
    requires
        cluster_ok(cluster, logs, votes),
        enabled(cluster, event),
        event_ok(cluster, event, logs, votes, next),
    ensures
        ({
            let node = cluster.nodes[event.node()];
            cluster_ok(
                after(cluster, event),
                next,
                votes.extended(event, node, outcome(node, event).state),
            )
        }),
{
    reveal(cluster_ok);
    let ids = cluster.nodes.dom();
    let id = event.node();
    let node = cluster.nodes[id];
    let step = outcome(node, event);
    let votes_next = votes.extended(event, node, step.state);
    let cluster_next = after(cluster, event);
    lemma_elections_step(cluster, event, votes);
    assert(cluster_next.nodes.dom() =~= ids);
    assert forall|other: u64| #[trigger] ids.contains(other) implies node_ok(
        cluster_next.nodes[other],
        other,
        next,
        votes_next,
        ids,
    ) by {
        if other != id {
            lemma_other_node(
                cluster.nodes[other],
                other,
                logs,
                votes,
                next,
                votes_next,
                ids,
                id,
            );
        }
    }
    assert forall|envelope: Envelope| #[trigger]
        cluster_next.sent.contains(envelope) implies message_ok(
        envelope,
        next,
        votes_next,
        ids,
    ) by {
        if cluster.sent.contains(envelope) {
            assert(vote_message_ok(envelope, votes, ids));
            lemma_message_grown(envelope, logs, votes, next, votes_next, ids, id);
        } else {
            assert(sends(id, step.actions, envelope));
        }
    }
    assert forall|application: Application| #[trigger]
        cluster_next.applied.contains(application) implies application_ok(
        application,
        next,
        votes_next,
        ids,
    ) by {
        if cluster.applied.contains(application) {
            lemma_application_grown(application, logs, votes, next, votes_next, ids, id);
        } else {
            assert(applies(step.actions, application));
        }
    }
}

proof fn lemma_agree_self(log: Log)
    ensures
        agree(log, log, log.len() as int),
{
}

/// Nothing new is in keeping with everything.
proof fn lemma_no_growth(logs: Logs, votes: Votes, id: u64)
    ensures
        logs_grow(logs, votes, logs, votes, id),
{
    assert forall|term: u64| #[trigger] votes.has_led(term) implies agree(
        logs.logs[term],
        logs.logs[term],
        logs.logs[term].len() as int,
    ) by {
        lemma_agree_self(logs.logs[term]);
    }
}

/// What is settled up to an index is settled up to a lower one.
proof fn lemma_settled_less(
    log: Log,
    logs: Logs,
    votes: Votes,
    ids: Set<u64>,
    index: int,
    less: int,
    limit: u64,
)
    requires
        logs.settled(votes, ids, log, index, limit),
        0 <= less <= index,
    ensures
        logs.settled(votes, ids, log, less, limit),
{
    if less != 0 {
        let (term, last) = choose|term: u64, last: int| #[trigger]
            logs.chosen(votes, ids, term, last) && term <= limit && index <= last && agree(
                log,
                logs.logs[term],
                index + 1,
            );
        lemma_agree_less(log, logs.logs[term], index + 1, less + 1);
    }
}

/// What is kept up to a limit is kept up to a higher one.
proof fn lemma_kept_later(
    log: Log,
    logs: Logs,
    votes: Votes,
    term: u64,
    index: int,
    limit: int,
    later: int,
)
    requires
        logs.kept(votes, log, term, index, limit),
        limit <= later,
    ensures
        logs.kept(votes, log, term, index, later),
{
    if !agree(log, logs.logs[term], index + 1) {
        let between = choose|between: u64|
            term < between < limit && #[trigger] logs.lacks(votes, between, term, index);
        assert(term < between < later);
    }
}

/// A node keeps in order when its log stays what it is, whatever part of it a snapshot covers, and
/// the node forgets some of what it knows or moves on to a later term.
proof fn lemma_steady_node(
    node: CoreView,
    next: CoreView,
    id: u64,
    logs: Logs,
    votes: Votes,
    ids: Set<u64>,
)
    requires
        node_ok(node, id, logs, votes, ids),
        next.wf(),
        represents(next, logs.full[id]),
        next.commit_index <= node.commit_index,
        node.current_term <= next.current_term,
        node.current_term < next.current_term || next.state != node.state ==> next.state
            == RaftState::Follower,
        next.match_index == node.match_index || next.state == RaftState::Follower
            && next.match_index.dom().subset_of(ids.remove(id)),
    ensures
        node_ok(next, id, logs, votes, ids),
{
    let full = logs.full[id];
    let term = next.current_term;
    lemma_settled_less(
        full,
        logs,
        votes,
        ids,
        node.commit_index as int,
        next.commit_index as int,
        node.current_term,
    );
    assert forall|earlier: u64, index: int| #[trigger]
        logs.acked(votes, id, earlier, index) implies earlier <= term && logs.kept(
        votes,
        full,
        earlier,
        index,
        term + 1,
    ) by {
        lemma_kept_later(
            full,
            logs,
            votes,
            earlier,
            index,
            node.current_term + 1,
            term + 1,
        );
    }
    let commit = next.commit_index as int;
    if commit != 0 {
        let (chosen, last) = choose|chosen: u64, last: int| #[trigger]
            logs.chosen(votes, ids, chosen, last) && chosen <= node.current_term && commit <= last
                && agree(full, logs.logs[chosen], commit + 1);
        assert(logs.chosen(votes, ids, chosen, last) && chosen <= term);
    }
}

/// What a leader sends to a peer is part of its log.
proof fn lemma_replication_ok(
    node: CoreView,
    logs: Logs,
    votes: Votes,
    ids: Set<u64>,
    peer: u64,
    envelope: Envelope,
)
    requires
        logs_ok(logs, votes, ids),
        voter_ok(node, node.id, votes, ids),
        node_ok(node, node.id, logs, votes, ids),
        node.state == RaftState::Leader,
        node.tracks(peer),
        peer != node.id,
        carries(node.id, node.replication_to(peer), envelope),
    ensures
        message_ok(envelope, logs, votes, ids),
{
    let term = node.current_term;
    let log = logs.logs[term];
    let next = node.next_for(peer);
    assert(votes.has_led(term));
    lemma_term_log(logs, votes, ids, term);
    if next > node.base {
        let prev = next - 1;
        let entries = node.log.skip(next - node.base);
        assert(log[prev].term == node.term_at(prev));
        assert forall|i: int| 0 <= i < entries.len() implies #[trigger] entries[i] == log[prev + 1
            + i] by {
            assert(log[prev + 1 + i] == node.log[prev + 1 + i - node.base]);
        }
    } else {
        let base = node.base as int;
        lemma_settled_less(log, logs, votes, ids, node.commit_index as int, base, term);
        if base != 0 {
            let (earlier, last) = choose|earlier: u64, last: int| #[trigger]
                logs.chosen(votes, ids, earlier, last) && earlier <= term && base <= last && agree(
                    log,
                    logs.logs[earlier],
                    base + 1,
                );
            lemma_agree_at(log, logs.logs[earlier], base + 1, base);
            assert(logs.chosen(votes, ids, earlier, last));
        }
    }
}

/// What a leader sends to its peers is part of its log.
proof fn lemma_broadcast_ok(
    node: CoreView,
    logs: Logs,
    votes: Votes,
    ids: Set<u64>,
    envelope: Envelope,
)
    requires
        ids.finite(),
        logs_ok(logs, votes, ids),
        voter_ok(node, node.id, votes, ids),
        node_ok(node, node.id, logs, votes, ids),
        node.state == RaftState::Leader,
        node.tracks_peers(),
        sends(node.id, node.broadcast(), envelope),
    ensures
        message_ok(envelope, logs, votes, ids),
{
    let actions = node.broadcast();
    let i = choose|i: int| 0 <= i < actions.len() && carries(node.id, #[trigger] actions[i], envelope);
    let peer = node.peers[i];
    assert(node.peers.to_set().contains(peer));
    lemma_replication_ok(node, logs, votes, ids, peer, envelope);
}

// --------------------------------------------------------------------------------- ticks, clients

/// The logs when a node stands for election in `term`.
proof fn lemma_stand_logs(
    node: CoreView,
    term: u64,
    logs: Logs,
    votes: Votes,
    votes_next: Votes,
    ids: Set<u64>,
) -> (next: Logs)
    requires
        votes_ok(votes, ids),
        votes_ok(votes_next, ids),
        logs_ok(logs, votes, ids),
        voter_ok(node, node.id, votes, ids),
        node_ok(node, node.id, logs, votes, ids),
        term == node.current_term + 1,
        votes_next == (Votes { stood: votes.stood.insert(Turn { node: node.id, term }), ..votes }),
    ensures
        next == (Logs {
            own: logs.own.insert(Turn { node: node.id, term }, logs.full[node.id]),
            ..logs
        }),
        logs_grow(logs, votes, next, votes_next, node.id),
        logs_ok(next, votes_next, ids),
        forall|other: u64, earlier: u64, index: int| #[trigger]
            next.acked(votes_next, other, earlier, index) ==> logs.acked(
                votes,
                other,
                earlier,
                index,
            ),
{
    let id = node.id;
    let turn = Turn { node: id, term };
    let full = logs.full[id];
    let next = Logs { own: logs.own.insert(turn, full), ..logs };
    assert(!votes.stood.contains(turn));
    lemma_no_growth(logs, votes, id);
    assert(logs_grow(logs, votes, next, votes_next, id));
    assert forall|other: u64, earlier: u64, index: int| #[trigger]
        next.acked(votes_next, other, earlier, index) implies logs.acked(
        votes,
        other,
        earlier,
        index,
    ) by {
        if votes.leader[earlier] != other {
            let k = choose|k: int|
                index <= k && #[trigger] next.acks.contains(
                    Ack { node: other, term: earlier, index: k },
                );
            assert(logs.acks.contains(Ack { node: other, term: earlier, index: k }));
        }
    }
    lemma_sound_grown(full, logs, votes, next, votes_next, id);
    assert(own_log_ok(next, votes_next, turn));
    assert forall|other: Turn, earlier: u64, index: int|
        #![trigger votes_next.stood.contains(other), next.acked(votes_next, other.node, earlier, index)]
        votes_next.stood.contains(other) && earlier < other.term && next.acked(
            votes_next,
            other.node,
            earlier,
            index,
        ) && (!votes.stood.contains(other) || !logs.acked(
            votes,
            other.node,
            earlier,
            index,
        )) implies next.kept(votes_next, next.own[other], earlier, index, other.term as int) by {
        assert(other == turn);
        assert(logs.acked(votes, id, earlier, index));
        lemma_kept_grown(
            full,
            logs,
            votes,
            next,
            votes_next,
            ids,
            id,
            earlier,
            index,
            term as int,
        );
    }
    lemma_logs_step(logs, votes, next, votes_next, ids, id);
    next
}

/// What a candidate sends describes its log.
proof fn lemma_vote_request_ok(
    node: CoreView,
    logs: Logs,
    votes: Votes,
    ids: Set<u64>,
    envelope: Envelope,
)
    requires
        node_ok(node, node.id, logs, votes, ids),
        node.state == RaftState::Candidate,
        sends(
            node.id,
            Seq::new(node.peers.len(), |i: int| node.vote_request_to(node.peers[i])),
            envelope,
        ),
    ensures
        message_ok(envelope, logs, votes, ids),
{
    let full = logs.full[node.id];
    if node.log.len() > 1 {
        assert(full[full.len() - 1] == node.log[node.log.len() - 1]);
    }
}

/// A tick.
proof fn lemma_tick(cluster: Cluster, event: Event, logs: Logs, votes: Votes) -> (next: Logs)
    requires
        cluster_ok(cluster, logs, votes),
        enabled(cluster, event),
        event is Tick,
    ensures
        event_ok(cluster, event, logs, votes, next),
{
    reveal(cluster_ok);
    let ids = cluster.nodes.dom();
    let id = event.node();
    let node = cluster.nodes[id];
    let timeout = event->Tick_timeout;
    let raw = node.on_tick(timeout);
    let state = outcome(node, event).state;
    let votes_next = votes.extended(event, node, state);
    assert(voter_ok(node, id, votes, ids));
    assert(node_ok(node, id, logs, votes, ids));
    lemma_elections_step(cluster, event, votes);
    lemma_settled(raw, id);
    lemma_no_growth(logs, votes, id);
    if stands(node, state) {
        assert(votes_next =~= Votes {
            stood: votes.stood.insert(Turn { node: id, term: state.current_term }),
            ..votes
        });
        let next = lemma_stand_logs(node, state.current_term, logs, votes, votes_next, ids);
        let idle = CoreView { state: RaftState::Follower, ..state };
        lemma_steady_node(node, idle, id, logs, votes, ids);
        lemma_own_growth(idle, logs, votes, next, votes_next, ids);
        assert(node_ok(state, id, next, votes_next, ids));
        assert(node_ok(raw.state, id, next, votes_next, ids));
        assert forall|envelope: Envelope| #[trigger]
            sends(id, outcome(node, event).actions, envelope) implies message_ok(
            envelope,
            next,
            votes_next,
            ids,
        ) by {
            assert(raw.actions =~= Seq::new(
                raw.state.peers.len(),
                |i: int| raw.state.vote_request_to(raw.state.peers[i]),
            ));
            lemma_vote_request_ok(raw.state, next, votes_next, ids, envelope);
        }
        next
    } else {
        assert(votes_next =~= votes);
        lemma_steady_node(node, state, id, logs, votes, ids);
        let ticked = CoreView { ticks: (node.ticks + 1) as u64, ..node };
        lemma_steady_node(node, ticked, id, logs, votes, ids);
        assert forall|envelope: Envelope| #[trigger]
            sends(id, outcome(node, event).actions, envelope) implies message_ok(
            envelope,
            logs,
            votes_next,
            ids,
        ) by {
            assert(raw.actions == ticked.broadcast());
            assert(ticked.tracks_peers());
            assert(voter_ok(ticked, id, votes, ids));
            lemma_broadcast_ok(ticked, logs, votes, ids, envelope);
        }
        logs
    }
}

/// The node itself keeps in order when logs grow that are not its own.
proof fn lemma_own_growth(
    node: CoreView,
    logs: Logs,
    votes: Votes,
    next: Logs,
    votes_next: Votes,
    ids: Set<u64>,
)
    requires
        logs_ok(logs, votes, ids),
        logs_grow(logs, votes, next, votes_next, node.id),
        node_ok(node, node.id, logs, votes, ids),
        node.state == RaftState::Follower,
        next.full[node.id] == logs.full[node.id],
        forall|earlier: u64, index: int| #[trigger]
            next.acked(votes_next, node.id, earlier, index) ==> logs.acked(
                votes,
                node.id,
                earlier,
                index,
            ),
    ensures
        node_ok(node, node.id, next, votes_next, ids),
{
    let id = node.id;
    let full = logs.full[id];
    let term = node.current_term;
    lemma_sound_grown(full, logs, votes, next, votes_next, id);
    assert forall|earlier: u64, index: int| #[trigger]
        next.acked(votes_next, id, earlier, index) implies earlier <= term && next.kept(
        votes_next,
        full,
        earlier,
        index,
        term + 1,
    ) by {
        assert(logs.acked(votes, id, earlier, index));
        lemma_kept_grown(
            full,
            logs,
            votes,
            next,
            votes_next,
            ids,
            id,
            earlier,
            index,
            term + 1,
        );
    }
    lemma_settled_grown(
        full,
        logs,
        votes,
        next,
        votes_next,
        ids,
        id,
        node.commit_index as int,
        term,
        term,
    );
}

/// A log stays in agreement when entries are added to it.
proof fn lemma_agree_push(a: Log, b: Log, n: int, entry: EntryView)
    requires
        agree(a, b, n),
    ensures
        agree(a.push(entry), b, n),
{
    assert(a.push(entry).take(n) =~= a.take(n));
}

/// A log that is kept stays so when entries are added to it.
proof fn lemma_kept_push(
    log: Log,
    entry: EntryView,
    logs: Logs,
    votes: Votes,
    term: u64,
    index: int,
    limit: int,
)
    requires
        logs.kept(votes, log, term, index, limit),
    ensures
        logs.kept(votes, log.push(entry), term, index, limit),
{
    if agree(log, logs.logs[term], index + 1) {
        lemma_agree_push(log, logs.logs[term], index + 1, entry);
    }
}

/// What is settled stays so when entries are added to a log.
proof fn lemma_settled_push(
    log: Log,
    entry: EntryView,
    logs: Logs,
    votes: Votes,
    ids: Set<u64>,
    index: int,
    limit: u64,
)
    requires
        logs.settled(votes, ids, log, index, limit),
    ensures
        logs.settled(votes, ids, log.push(entry), index, limit),
{
    if index != 0 {
        let (term, last) = choose|term: u64, last: int| #[trigger]
            logs.chosen(votes, ids, term, last) && term <= limit && index <= last && agree(
                log,
                logs.logs[term],
                index + 1,
            );
        lemma_agree_push(log, logs.logs[term], index + 1, entry);
    }
}

/// The log of a leader with one more entry of its term is in order.
proof fn lemma_sound_push(
    log: Log,
    entry: EntryView,
    logs: Logs,
    votes: Votes,
    next: Logs,
    votes_next: Votes,
    id: u64,
)
    requires
        logs_grow(logs, votes, next, votes_next, id),
        sound_log(log, votes, logs.logs),
        log.last().term <= entry.term,
        1 <= entry.term,
        votes_next.has_led(entry.term),
        next.logs[entry.term] == log.push(entry),
    ensures
        sound_log(log.push(entry), votes_next, next.logs),
{
    let longer = log.push(entry);
    lemma_sound_grown(log, logs, votes, next, votes_next, id);
    assert forall|i: int| 1 <= i < longer.len() implies rooted(
        longer,
        #[trigger] longer[i].term,
        i,
        votes_next,
        next.logs,
    ) by {
        if i < log.len() {
            assert(longer[i] == log[i]);
            assert(rooted(log, log[i].term, i, votes_next, next.logs));
            lemma_agree_push(log, next.logs[log[i].term], i + 1, entry);
        }
    }
    assert forall|i: int, j: int| 0 <= i <= j < longer.len() implies (#[trigger] longer[i]).term
        <= (#[trigger] longer[j]).term by {
        if j == log.len() && i < log.len() {
            assert(log[i].term <= log[log.len() - 1].term);
        }
    }
}

/// The logs when a leader adds an entry.
proof fn lemma_append_logs(
    node: CoreView,
    entry: EntryView,
    logs: Logs,
    votes: Votes,
    ids: Set<u64>,
) -> (next: Logs)
    requires
        votes_ok(votes, ids),
        logs_ok(logs, votes, ids),
        voter_ok(node, node.id, votes, ids),
        node_ok(node, node.id, logs, votes, ids),
        node.state == RaftState::Leader,
        entry.term == node.current_term,
    ensures
        next == (Logs {
            full: logs.full.insert(node.id, logs.full[node.id].push(entry)),
            logs: logs.logs.insert(node.current_term, logs.full[node.id].push(entry)),
            ..logs
        }),
        logs_grow(logs, votes, next, votes, node.id),
        logs_ok(next, votes, ids),
{
    reveal(logs_ok);
    let id = node.id;
    let term = node.current_term;
    let full = logs.full[id];
    let longer = full.push(entry);
    let next = Logs {
        full: logs.full.insert(id, longer),
        logs: logs.logs.insert(term, longer),
        ..logs
    };
    assert(votes.has_led(term) && votes.leader[term] == id);
    assert(term_log_ok(logs, votes, term));
    lemma_no_growth(logs, votes, id);
    assert(agree(full, longer, full.len() as int)) by {
        assert(longer.take(full.len() as int) =~= full.take(full.len() as int));
    }
    assert(logs_grow(logs, votes, next, votes, id));
    assert(votes_term_ok(votes, term, ids));
    lemma_sound_push(full, entry, logs, votes, next, votes, id);
    let own = logs.own[Turn { node: id, term }];
    assert(agree(own, longer, own.len() as int)) by {
        lemma_agree_less(full, longer, full.len() as int, own.len() as int);
    }
    assert(term_log_ok(next, votes, term)) by {
        assert forall|i: int| own.len() <= i < longer.len() implies (#[trigger] longer[i]).term
            == term by {
            if i < full.len() {
                assert(full[i].term == term);
            }
        }
    }
    assert forall|other: u64, earlier: u64, index: int| #[trigger]
        next.acked(votes, other, earlier, index) implies logs.acked(votes, other, earlier, index)
        || (other == id && earlier == term) by {
        if votes.leader[earlier] != other {
            let k = choose|k: int|
                index <= k && #[trigger] next.acks.contains(
                    Ack { node: other, term: earlier, index: k },
                );
            assert(logs.acks.contains(Ack { node: other, term: earlier, index: k }));
        }
    }
    lemma_logs_step(logs, votes, next, votes, ids, id);
    next
}

/// A leader that has added an entry.
proof fn lemma_append_node(
    node: CoreView,
    longer: CoreView,
    entry: EntryView,
    logs: Logs,
    votes: Votes,
    next: Logs,
    ids: Set<u64>,
)
    requires
        votes_ok(votes, ids),
        logs_ok(logs, votes, ids),
        voter_ok(node, node.id, votes, ids),
        node_ok(node, node.id, logs, votes, ids),
        node.state == RaftState::Leader,
        entry.term == node.current_term,
        next == (Logs {
            full: logs.full.insert(node.id, logs.full[node.id].push(entry)),
            logs: logs.logs.insert(node.current_term, logs.full[node.id].push(entry)),
            ..logs
        }),
        logs_grow(logs, votes, next, votes, node.id),
        logs_ok(next, votes, ids),
        longer.wf(),
        longer.id == node.id,
        longer.state == RaftState::Leader,
        longer.current_term == node.current_term,
        longer.base == node.base,
        longer.log == node.log.push(entry),
        longer.commit_index == node.commit_index,
        longer.match_index == node.match_index,
    ensures
        node_ok(longer, node.id, next, votes, ids),
{
    let id = node.id;
    let term = node.current_term;
    let full = logs.full[id];
    let new_full = full.push(entry);
    assert(votes.has_led(term) && votes.leader[term] == id);
    assert(represents(longer, new_full)) by {
        assert forall|i: int| node.base < i < new_full.len() implies #[trigger] new_full[i]
            == longer.log[i - node.base] by {
            if i < full.len() {
                assert(full[i] == node.log[i - node.base]);
            }
        }
    }
    lemma_term_log(next, votes, ids, term);
    assert forall|peer: u64| #[trigger] longer.match_index.dom().contains(peer) implies match_ok(
        next,
        votes,
        peer,
        term,
        longer.match_index[peer] as int,
    ) by {
        lemma_match_grown(
            logs,
            votes,
            next,
            votes,
            id,
            peer,
            term,
            node.match_index[peer] as int,
        );
    }
    assert forall|earlier: u64, index: int| #[trigger]
        next.acked(votes, id, earlier, index) implies earlier <= term && next.kept(
        votes,
        new_full,
        earlier,
        index,
        term + 1,
    ) by {
        if earlier == term {
            assert(agree(new_full, next.logs[term], index + 1));
        } else {
            if votes.leader[earlier] != id {
                let k = choose|k: int|
                    index <= k && #[trigger] next.acks.contains(
                        Ack { node: id, term: earlier, index: k },
                    );
                assert(logs.acks.contains(Ack { node: id, term: earlier, index: k }));
            }
            assert(logs.acked(votes, id, earlier, index));
            lemma_kept_grown(
                full,
                logs,
                votes,
                next,
                votes,
                ids,
                id,
                earlier,
                index,
                term + 1,
            );
            lemma_kept_push(full, entry, next, votes, earlier, index, term + 1);
        }
    }
    lemma_settled_grown(
        full,
        logs,
        votes,
        next,
        votes,
        ids,
        id,
        node.commit_index as int,
        term,
        term,
    );
    lemma_settled_push(full, entry, next, votes, ids, node.commit_index as int, term);
}

/// A proposal or a read.
proof fn lemma_client(cluster: Cluster, event: Event, logs: Logs, votes: Votes) -> (next: Logs)
    requires
        cluster_ok(cluster, logs, votes),
        enabled(cluster, event),
        event is Propose || event is Read,
    ensures
        event_ok(cluster, event, logs, votes, next),
{
    reveal(cluster_ok);
    let ids = cluster.nodes.dom();
    let id = event.node();
    let node = cluster.nodes[id];
    let raw = match event {
        Event::Propose { command, .. } => node.on_propose(command),
        _ => Step { state: node.on_read_request(), actions: Seq::<ActionView>::empty() },
    };
    let entry = match event {
        Event::Propose { command, .. } => EntryView { term: node.current_term, command },
        _ => no_op(node.current_term),
    };
    let state = outcome(node, event).state;
    let votes_next = votes.extended(event, node, state);
    assert(voter_ok(node, id, votes, ids));
    assert(node_ok(node, id, logs, votes, ids));
    lemma_settled(raw, id);
    assert(votes_next =~= votes);
    let next = lemma_append_logs(node, entry, logs, votes, ids);
    lemma_append_node(node, state, entry, logs, votes, next, ids);
    lemma_append_node(node, raw.state, entry, logs, votes, next, ids);
    assert forall|envelope: Envelope| #[trigger]
        sends(id, outcome(node, event).actions, envelope) implies message_ok(
        envelope,
        next,
        votes_next,
        ids,
    ) by {
        assert(raw.actions == raw.state.broadcast());
        assert forall|i: int| 0 <= i < raw.state.peers.len() implies raw.state.tracks(
            #[trigger] raw.state.peers[i],
        ) by {
            assert(node.tracks(node.peers[i]));
        }
        assert(voter_ok(raw.state, id, votes, ids));
        lemma_broadcast_ok(raw.state, next, votes, ids, envelope);
    }
    next
}

// ------------------------------------------------------------------------------------- elections

/// A node that joins a later term.
proof fn lemma_join(
    node: CoreView,
    term: u64,
    timeout: u64,
    logs: Logs,
    votes: Votes,
    ids: Set<u64>,
)
    requires
        voter_ok(node, node.id, votes, ids),
        node_ok(node, node.id, logs, votes, ids),
        node.timeout_start <= timeout < node.timeout_end,
    ensures
        voter_ok(node.joined_term(term, timeout), node.id, votes, ids),
        node_ok(node.joined_term(term, timeout), node.id, logs, votes, ids),
{
    lemma_steady_node(node, node.joined_term(term, timeout), node.id, logs, votes, ids);
}

/// The logs when a node votes for another.
proof fn lemma_grant_logs(
    node: CoreView,
    candidate: u64,
    logs: Logs,
    votes: Votes,
    votes_next: Votes,
    ids: Set<u64>,
) -> (next: Logs)
    requires
        votes_ok(votes, ids),
        votes_ok(votes_next, ids),
        logs_ok(logs, votes, ids),
        voter_ok(node, node.id, votes, ids),
        node_ok(node, node.id, logs, votes, ids),
        candidate != node.id,
        node.voted_for is None || node.voted_for == Some(candidate),
        votes.stood.contains(Turn { node: candidate, term: node.current_term }),
        at_least_as_complete(
            logs.own[Turn { node: candidate, term: node.current_term }],
            logs.full[node.id],
        ),
        votes_next == (Votes {
            choice: votes.choice.insert(
                Turn { node: node.id, term: node.current_term },
                candidate,
            ),
            ..votes
        }),
    ensures
        next.full == logs.full,
        next.own == logs.own,
        next.acks == logs.acks,
        logs_grow(logs, votes, next, votes_next, node.id),
        logs_ok(next, votes_next, ids),
        forall|other: u64, earlier: u64, index: int| #[trigger]
            next.acked(votes_next, other, earlier, index) ==> logs.acked(
                votes,
                other,
                earlier,
                index,
            ),
{
    let id = node.id;
    let term = node.current_term;
    let turn = Turn { node: id, term };
    let full = logs.full[id];
    let next = if votes.choice.dom().contains(turn) {
        logs
    } else {
        Logs { ballot: logs.ballot.insert(turn, full), ..logs }
    };
    lemma_no_growth(logs, votes, id);
    assert(logs_grow(logs, votes, next, votes_next, id));
    assert forall|other: u64, earlier: u64, index: int| #[trigger]
        next.acked(votes_next, other, earlier, index) implies logs.acked(
        votes,
        other,
        earlier,
        index,
    ) by {
        if votes.leader[earlier] != other {
            let k = choose|k: int|
                index <= k && #[trigger] next.acks.contains(
                    Ack { node: other, term: earlier, index: k },
                );
            assert(logs.acks.contains(Ack { node: other, term: earlier, index: k }));
        }
    }
    lemma_sound_grown(full, logs, votes, next, votes_next, id);
    assert forall|other: Turn, earlier: u64, index: int|
        #![trigger votes_next.choice.dom().contains(other), next.acked(votes_next, other.node, earlier, index)]
        votes_next.choice.dom().contains(other) && earlier < other.term && next.acked(
            votes_next,
            other.node,
            earlier,
            index,
        ) && (!votes.choice.dom().contains(other) || !logs.acked(
            votes,
            other.node,
            earlier,
            index,
        )) implies {
        ||| next.kept(votes_next, next.ballot[other], earlier, index, other.term as int)
        ||| votes_next.has_led(other.term) && !votes_next.voters[other.term].contains(other.node)
    } by {
        assert(other == turn);
        assert(logs.acked(votes, id, earlier, index));
        assert(logs.kept(votes, full, earlier, index, term + 1));
        if logs.kept(votes, full, earlier, index, term as int) {
            lemma_kept_grown(
                full,
                logs,
                votes,
                next,
                votes_next,
                ids,
                id,
                earlier,
                index,
                term as int,
            );
        } else {
            let later = choose|later: u64|
                earlier < later < term + 1 && #[trigger] logs.lacks(votes, later, earlier, index);
            assert(later == term);
            assert(votes.has_led(term));
            assert(votes_term_ok(votes, term, ids));
            if votes.voters[term].contains(id) {
                assert(votes.voted(id, term, votes.leader[term]));
            }
        }
    }
    lemma_logs_step(logs, votes, next, votes_next, ids, id);
    next
}

/// A node that is asked for its vote.
proof fn lemma_vote_requested(
    node: CoreView,
    envelope: Envelope,
    timeout: u64,
    logs: Logs,
    votes: Votes,
    votes_next: Votes,
    ids: Set<u64>,
) -> (next: Logs)
    requires
        site_ok(node, logs, votes, ids),
        votes_ok(votes_next, ids),
        node.timeout_start <= timeout < node.timeout_end,
        envelope.to == node.id,
        envelope.message is RequestVote,
        vote_message_ok(envelope, votes, ids),
        message_ok(envelope, logs, votes, ids),
        ({
            let req = envelope.message->RequestVote_0;
            let joined = node.joined_term(req.term, timeout);
            votes_next == if joined.grants(req) {
                Votes {
                    choice: votes.choice.insert(
                        Turn { node: node.id, term: joined.current_term },
                        req.candidate_id,
                    ),
                    ..votes
                }
            } else {
                votes
            }
        }),
    ensures
        step_ok(
            node.id,
            node.on_message(envelope.message, timeout),
            logs,
            votes,
            next,
            votes_next,
            ids,
        ),
{
    let id = node.id;
    let req = envelope.message->RequestVote_0;
    let state = node.on_request_vote(req, timeout).state;
    lemma_no_growth(logs, votes, id);
    let joined = node.joined_term(req.term, timeout);
    lemma_join(node, req.term, timeout, logs, votes, ids);
    let full = logs.full[id];
    assert(full.last().term == joined.log.last().term) by {
        if joined.log.len() > 1 {
            assert(full[full.len() - 1] == joined.log[joined.log.len() - 1]);
        }
    }
    lemma_steady_node(joined, state, id, logs, votes, ids);
    if joined.grants(req) {
        let next = lemma_grant_logs(joined, req.candidate_id, logs, votes, votes_next, ids);
        lemma_own_growth(state, logs, votes, next, votes_next, ids);
        next
    } else {
        logs
    }
}

/// The logs when a candidate wins.
proof fn lemma_win_logs(
    node: CoreView,
    voters: Set<u64>,
    logs: Logs,
    votes: Votes,
    votes_next: Votes,
    ids: Set<u64>,
) -> (next: Logs)
    requires
        site_ok(node, logs, votes, ids),
        votes_ok(votes_next, ids),
        node.state == RaftState::Candidate,
        !votes.has_led(node.current_term),
        votes_next == (Votes {
            leader: votes.leader.insert(node.current_term, node.id),
            voters: votes.voters.insert(node.current_term, voters),
            ..votes
        }),
    ensures
        next == (Logs {
            full: logs.full.insert(
                node.id,
                logs.full[node.id].push(no_op(node.current_term)),
            ),
            logs: logs.logs.insert(
                node.current_term,
                logs.full[node.id].push(no_op(node.current_term)),
            ),
            ..logs
        }),
        logs_grow(logs, votes, next, votes_next, node.id),
        logs_ok(next, votes_next, ids),
        forall|other: u64, earlier: u64, index: int| #[trigger]
            next.acked(votes_next, other, earlier, index) ==> logs.acked(
                votes,
                other,
                earlier,
                index,
            ) || (other == node.id && earlier == node.current_term),
{
    reveal(logs_ok);
    let id = node.id;
    let term = node.current_term;
    let turn = Turn { node: id, term };
    let full = logs.full[id];
    let entry = no_op(term);
    let longer = full.push(entry);
    let next = Logs {
        full: logs.full.insert(id, longer),
        logs: logs.logs.insert(term, longer),
        ..logs
    };
    assert(votes.stood.contains(turn));
    assert(own_log_ok(logs, votes, turn));
    lemma_no_growth(logs, votes, id);
    assert(votes.voters.dom() == votes.leader.dom());
    assert(logs_grow(logs, votes, next, votes_next, id));
    lemma_sound_push(full, entry, logs, votes, next, votes_next, id);
    assert(agree(full, longer, full.len() as int)) by {
        assert(longer.take(full.len() as int) =~= full.take(full.len() as int));
    }
    assert(term_log_ok(next, votes_next, term));
    assert forall|other: u64, earlier: u64, index: int| #[trigger]
        next.acked(votes_next, other, earlier, index) implies logs.acked(
        votes,
        other,
        earlier,
        index,
    ) || (other == id && earlier == term) by {
        if votes_next.leader[earlier] != other {
            let k = choose|k: int|
                index <= k && #[trigger] next.acks.contains(
                    Ack { node: other, term: earlier, index: k },
                );
            assert(logs.acks.contains(Ack { node: other, term: earlier, index: k }));
        }
    }
    lemma_logs_step(logs, votes, next, votes_next, ids, id);
    next
}

/// A candidate that has won.
proof fn lemma_win_node(
    node: CoreView,
    counted: CoreView,
    timeout: u64,
    logs: Logs,
    votes: Votes,
    next: Logs,
    votes_next: Votes,
    ids: Set<u64>,
)
    requires
        site_ok(node, logs, votes, ids),
        node.state == RaftState::Candidate,
        node.has_room(),
        node.timeout_start <= timeout < node.timeout_end,
        counted == (CoreView { votes_received: counted.votes_received, ..node }),
        counted.votes_received.finite(),
        !votes.has_led(node.current_term),
        votes_next.has_led(node.current_term),
        votes_next.leader[node.current_term] == node.id,
        next == (Logs {
            full: logs.full.insert(
                node.id,
                logs.full[node.id].push(no_op(node.current_term)),
            ),
            logs: logs.logs.insert(
                node.current_term,
                logs.full[node.id].push(no_op(node.current_term)),
            ),
            ..logs
        }),
        logs_grow(logs, votes, next, votes_next, node.id),
        logs_ok(next, votes_next, ids),
        forall|earlier: u64, index: int| #[trigger]
            next.acked(votes_next, node.id, earlier, index) ==> logs.acked(
                votes,
                node.id,
                earlier,
                index,
            ) || earlier == node.current_term,
    ensures
        node_ok(counted.leading(timeout), node.id, next, votes_next, ids),
{
    reveal(logs_ok);
    let id = node.id;
    let term = node.current_term;
    let full = logs.full[id];
    let entry = no_op(term);
    let new_full = full.push(entry);
    let state = counted.leading(timeout);
    assert(term_log_ok(next, votes_next, term));
    assert(votes.stood.contains(Turn { node: id, term }));
    assert(own_log_ok(logs, votes, Turn { node: id, term }));
    assert(represents(state, new_full)) by {
        assert forall|i: int| node.base < i < new_full.len() implies #[trigger] new_full[i]
            == state.log[i - node.base] by {
            if i < full.len() {
                assert(full[i] == node.log[i - node.base]);
            }
        }
    }
    assert(state.match_index.dom() =~= ids.remove(id));
    assert(state.next_index.dom() =~= node.next_index.dom().union(ids.remove(id)));
    assert(state.wf());
    assert forall|peer: u64| #[trigger] state.match_index.dom().contains(peer) implies match_ok(
        next,
        votes_next,
        peer,
        term,
        state.match_index[peer] as int,
    ) by {
        assert(state.match_index[peer] == 0);
        assert(new_full[0].term == 0);
    }
    assert forall|earlier: u64, index: int| #[trigger]
        next.acked(votes_next, id, earlier, index) implies earlier <= term && next.kept(
        votes_next,
        new_full,
        earlier,
        index,
        term + 1,
    ) by {
        if earlier == term {
            assert(agree(new_full, next.logs[term], index + 1));
        } else {
            assert(logs.acked(votes, id, earlier, index));
            lemma_kept_grown(
                full,
                logs,
                votes,
                next,
                votes_next,
                ids,
                id,
                earlier,
                index,
                term + 1,
            );
            lemma_kept_push(full, entry, next, votes_next, earlier, index, term + 1);
        }
    }
    lemma_settled_grown(
        full,
        logs,
        votes,
        next,
        votes_next,
        ids,
        id,
        node.commit_index as int,
        term,
        term,
    );
    lemma_settled_push(full, entry, next, votes_next, ids, node.commit_index as int, term);
}

/// A node that gets an answer to its request for a vote.
proof fn lemma_vote_answered(
    node: CoreView,
    envelope: Envelope,
    timeout: u64,
    logs: Logs,
    votes: Votes,
    votes_next: Votes,
    ids: Set<u64>,
) -> (next: Logs)
    requires
        site_ok(node, logs, votes, ids),
        votes_ok(votes_next, ids),
        node.has_room(),
        node.timeout_start <= timeout < node.timeout_end,
        envelope.message is RequestVoteResponse,
        ({
            let state = node.on_message(envelope.message, timeout).state;
            &&& votes_next == if wins(node, state) {
                Votes {
                    leader: votes.leader.insert(state.current_term, node.id),
                    voters: votes.voters.insert(state.current_term, state.votes_received),
                    ..votes
                }
            } else {
                votes
            }
            &&& wins(node, state) ==> !votes.has_led(state.current_term)
            &&& voter_ok(state, node.id, votes_next, ids)
        }),
    ensures
        step_ok(
            node.id,
            node.on_message(envelope.message, timeout),
            logs,
            votes,
            next,
            votes_next,
            ids,
        ),
{
    let id = node.id;
    let resp = envelope.message->RequestVoteResponse_0;
    let step = node.on_request_vote_response(resp, timeout);
    let joined = node.joined_term(resp.term, timeout);
    let counted = CoreView {
        votes_received: joined.votes_received.insert(resp.id),
        ..joined
    };
    lemma_no_growth(logs, votes, id);
    lemma_join(node, resp.term, timeout, logs, votes, ids);
    if wins(node, step.state) {
        assert(joined == node);
        let next = lemma_win_logs(
            node,
            step.state.votes_received,
            logs,
            votes,
            votes_next,
            ids,
        );
        lemma_win_node(node, counted, timeout, logs, votes, next, votes_next, ids);
        assert(step.state == counted.leading(timeout));
        assert forall|envelope: Envelope| #[trigger]
            sends(id, step.actions, envelope) implies message_ok(
            envelope,
            next,
            votes_next,
            ids,
        ) by {
            assert(step.actions == step.state.broadcast());
            assert forall|i: int| 0 <= i < step.state.peers.len() implies step.state.tracks(
                #[trigger] step.state.peers[i],
            ) by {
                assert(step.state.peers.to_set().contains(step.state.peers[i]));
            }
            lemma_broadcast_ok(step.state, next, votes_next, ids, envelope);
        }
        next
    } else {
        lemma_steady_node(joined, step.state, id, logs, votes, ids);
        logs
    }
}

// ----------------------------------------------------------------------------------- replication

/// The beginning of a log that is in order is in order.
proof fn lemma_sound_take(log: Log, n: int, votes: Votes, logs: Map<u64, Log>)
    requires
        sound_log(log, votes, logs),
        1 <= n <= log.len(),
    ensures
        sound_log(log.take(n), votes, logs),
{
    let front = log.take(n);
    assert forall|i: int| 1 <= i < front.len() implies rooted(
        front,
        #[trigger] front[i].term,
        i,
        votes,
        logs,
    ) by {
        assert(front[i] == log[i]);
        assert(rooted(log, log[i].term, i, votes, logs));
        assert(front.take(i + 1) =~= log.take(i + 1));
    }
    assert forall|i: int, j: int| 0 <= i <= j < front.len() implies (#[trigger] front[i]).term <= (
    #[trigger] front[j]).term by {
        assert(front[i] == log[i] && front[j] == log[j]);
    }
}

/// What a node has settled is part of the log of the leader that it follows.
proof fn lemma_settled_is_led(
    log: Log,
    index: int,
    term: u64,
    logs: Logs,
    votes: Votes,
    ids: Set<u64>,
)
    requires
        votes_ok(votes, ids),
        logs_ok(logs, votes, ids),
        votes.has_led(term),
        sound_log(log, votes, logs.logs),
        logs.settled(votes, ids, log, index, term),
        0 <= index,
    ensures
        agree(log, logs.logs[term], index + 1),
{
    lemma_term_log(logs, votes, ids, term);
    if index == 0 {
        lemma_same_entry(log, logs.logs[term], 0, votes, logs.logs);
    } else {
        let (earlier, last) = choose|earlier: u64, last: int| #[trigger]
            logs.chosen(votes, ids, earlier, last) && earlier <= term && index <= last && agree(
                log,
                logs.logs[earlier],
                index + 1,
            );
        lemma_leader_completeness(logs, votes, ids, earlier, last, term);
        lemma_agree_less(logs.logs[term], logs.logs[earlier], last + 1, index + 1);
    }
}

/// What is settled in one log is settled in another that agrees with it.
proof fn lemma_settled_agree(
    a: Log,
    b: Log,
    logs: Logs,
    votes: Votes,
    ids: Set<u64>,
    index: int,
    limit: u64,
)
    requires
        logs.settled(votes, ids, a, index, limit),
        0 <= index,
        agree(b, a, index + 1),
    ensures
        logs.settled(votes, ids, b, index, limit),
{
    if index != 0 {
        let (term, last) = choose|term: u64, last: int| #[trigger]
            logs.chosen(votes, ids, term, last) && term <= limit && index <= last && agree(
                a,
                logs.logs[term],
                index + 1,
            );
        assert(agree(b, logs.logs[term], index + 1));
    }
}

/// A follower holds what the leader sends as far as it finds the terms of the entries in its log.
proof fn lemma_held(
    node: CoreView,
    full: Log,
    log: Log,
    prev: u64,
    entries: Seq<EntryView>,
    from: nat,
    votes: Votes,
    logs: Map<u64, Log>,
)
    requires
        node.log.len() >= 1,
        represents(node, full),
        sound_log(full, votes, logs),
        sound_log(log, votes, logs),
        agree(full, log, node.base + 1),
        from <= entries.len(),
        prev + 1 + entries.len() <= log.len(),
        forall|i: int| 0 <= i < entries.len() ==> #[trigger] entries[i] == log[prev + 1 + i],
        agree(full, log, prev + 1 + from),
    ensures
        from <= node.first_missing(prev, entries, from) <= entries.len(),
        agree(full, log, prev + 1 + node.first_missing(prev, entries, from)),
        node.first_missing(prev, entries, from) < entries.len() ==> !node.holds(
            prev + 1 + node.first_missing(prev, entries, from),
            entries[node.first_missing(prev, entries, from) as int],
        ),
    decreases entries.len() - from,
{
    let index = prev + 1 + from;
    if from < entries.len() && node.holds(index, entries[from as int]) {
        assert(entries[from as int] == log[prev + 1 + from]);
        assert(agree(full, log, index + 1)) by {
            if index <= node.base {
                lemma_agree_less(full, log, node.base + 1, index + 1);
            } else {
                assert(full[index] == node.log[index - node.base]);
                lemma_same_entry(full, log, index, votes, logs);
            }
        }
        lemma_held(node, full, log, prev, entries, from + 1, votes, logs);
    }
}

/// The log of a follower after a message of the leader of its term: it is part of the leader's, it
/// holds all that the message does, and it has lost nothing that was part of the leader's before.
proof fn lemma_merge(
    node: CoreView,
    req: AppendEntriesView,
    logs: Logs,
    votes: Votes,
    ids: Set<u64>,
) -> (merged: Log)
    requires
        site_ok(node, logs, votes, ids),
        entries_ok(req, logs, votes, ids),
        node.current_term == req.term,
        node.agrees_at(req.prev_log_index, req.prev_log_term),
    ensures
        represents(node.merged(req.prev_log_index, req.entries), merged),
        agree(merged, logs.logs[req.term], merged.len() as int),
        sound_log(merged, votes, logs.logs),
        merged.last().term == req.term,
        forall|n: int| #[trigger]
            agree(logs.full[node.id], logs.logs[req.term], n) ==> agree(
                merged,
                logs.logs[req.term],
                n,
            ),
        merged.len() >= req.prev_log_index + 1 + req.entries.len(),
        node.merged(req.prev_log_index, req.entries).log.len() >= 1,
        node.merged(req.prev_log_index, req.entries).unsaved_from matches Some(from) ==> node.base
            < from < merged.len(),
        merged.len() <= logs.full[node.id].len() || merged.len() == req.prev_log_index + 1
            + req.entries.len(),
{
    let full = logs.full[node.id];
    let term = req.term;
    let log = logs.logs[term];
    let prev = req.prev_log_index;
    let entries = req.entries;
    let end = prev + 1 + entries.len();
    lemma_term_log(logs, votes, ids, term);
    lemma_settled_is_led(full, node.commit_index as int, term, logs, votes, ids);
    lemma_agree_less(full, log, node.commit_index + 1, node.base + 1);
    assert(agree(full, log, prev + 1)) by {
        if prev <= node.base {
            lemma_agree_less(full, log, node.base + 1, prev + 1);
        } else {
            assert(full[prev as int] == node.log[prev - node.base]);
            lemma_same_entry(full, log, prev as int, votes, logs.logs);
        }
    }
    lemma_held(node, full, log, prev, entries, 0, votes, logs.logs);
    let k = node.first_missing(prev, entries, 0);
    if k == entries.len() {
        lemma_agree_at(full, log, end, end - 1);
        let last = full.len() - 1;
        assert(full[end - 1].term <= full[last].term);
        assert(full.last().term == term);
        assert(last >= 1) by {
            if last == 0 {
                assert(full[0].term == 0);
                assert(rooted(log, log[log.len() - 1].term, log.len() - 1, votes, logs.logs));
            }
        }
        assert(rooted(full, full[last].term, last, votes, logs.logs));
        full
    } else {
        let p = prev + 1 + k;
        let merged = log.take(end);
        assert(merged.take(end) =~= log.take(end));
        lemma_sound_take(log, end, votes, logs.logs);
        assert(entries[k as int] == log[prev + 1 + k]);
        assert forall|n: int| #[trigger] agree(full, log, n) implies agree(merged, log, n) by {
            if n > p {
                lemma_agree_at(full, log, n, p);
                assert(full[p] == node.log[p - node.base]);
                assert(node.holds(p, entries[k as int]));
            }
            assert(merged.take(n) =~= log.take(n));
        }
        let after = node.merged(prev, entries);
        assert(represents(after, merged)) by {
            assert(after.log.len() == p - node.base + entries.len() - k);
            lemma_agree_at(full, log, node.base + 1, node.base as int);
            assert forall|i: int| node.base < i < merged.len() implies #[trigger] merged[i]
                == after.log[i - node.base] by {
                if i < p {
                    lemma_agree_at(full, log, p, i);
                    assert(full[i] == node.log[i - node.base]);
                } else {
                    assert(entries[i - prev - 1] == log[prev + 1 + (i - prev - 1)]);
                }
            }
        }
        merged
    }
}

/// The logs when a follower takes over part of the log of its leader and says so.
proof fn lemma_ack_logs(
    node: CoreView,
    taken: Log,
    index: int,
    logs: Logs,
    votes: Votes,
    ids: Set<u64>,
) -> (next: Logs)
    requires
        site_ok(node, logs, votes, ids),
        votes.has_led(node.current_term),
        agree(taken, logs.logs[node.current_term], index + 1),
        0 <= index,
    ensures
        next == (Logs {
            full: logs.full.insert(node.id, taken),
            acks: logs.acks.insert(Ack { node: node.id, term: node.current_term, index }),
            ..logs
        }),
        logs_grow(logs, votes, next, votes, node.id),
        logs_ok(next, votes, ids),
        forall|other: u64, earlier: u64, at: int| #[trigger]
            next.acked(votes, other, earlier, at) ==> logs.acked(votes, other, earlier, at) || (
            other == node.id && earlier == node.current_term && at <= index),
{
    let id = node.id;
    let term = node.current_term;
    let ack = Ack { node: id, term, index };
    let next = Logs {
        full: logs.full.insert(id, taken),
        acks: logs.acks.insert(ack),
        ..logs
    };
    lemma_no_growth(logs, votes, id);
    assert(logs_grow(logs, votes, next, votes, id));
    assert forall|other: u64, earlier: u64, at: int| #[trigger]
        next.acked(votes, other, earlier, at) implies logs.acked(votes, other, earlier, at) || (
    other == id && earlier == term && at <= index) by {
        if votes.leader[earlier] != other {
            let k = choose|k: int|
                at <= k && #[trigger] next.acks.contains(
                    Ack { node: other, term: earlier, index: k },
                );
            if (Ack { node: other, term: earlier, index: k }) != ack {
                assert(logs.acks.contains(Ack { node: other, term: earlier, index: k }));
            }
        }
    }
    lemma_logs_step(logs, votes, next, votes, ids, id);
    next
}

/// A follower that has taken over part of the log of its leader.
proof fn lemma_ack_node(
    node: CoreView,
    after: CoreView,
    taken: Log,
    index: int,
    logs: Logs,
    votes: Votes,
    next: Logs,
    ids: Set<u64>,
)
    requires
        site_ok(node, logs, votes, ids),
        node.state == RaftState::Follower,
        votes.has_led(node.current_term),
        0 <= index,
        agree(taken, logs.logs[node.current_term], index + 1),
        next == (Logs {
            full: logs.full.insert(node.id, taken),
            acks: logs.acks.insert(Ack { node: node.id, term: node.current_term, index }),
            ..logs
        }),
        logs_grow(logs, votes, next, votes, node.id),
        forall|other: u64, earlier: u64, at: int| #[trigger]
            next.acked(votes, other, earlier, at) ==> logs.acked(votes, other, earlier, at) || (
            other == node.id && earlier == node.current_term && at <= index),
        forall|n: int| #[trigger]
            agree(logs.full[node.id], logs.logs[node.current_term], n) ==> agree(
                taken,
                logs.logs[node.current_term],
                n,
            ),
        sound_log(taken, votes, logs.logs),
        taken.last().term <= node.current_term,
        after.wf(),
        after.id == node.id,
        after.state == RaftState::Follower,
        after.current_term == node.current_term,
        after.match_index == node.match_index,
        represents(after, taken),
        logs.settled(votes, ids, taken, after.commit_index as int, node.current_term),
    ensures
        node_ok(after, node.id, next, votes, ids),
{
    let id = node.id;
    let term = node.current_term;
    let full = logs.full[id];
    let log = logs.logs[term];
    lemma_sound_grown(taken, logs, votes, next, votes, id);
    assert forall|earlier: u64, at: int| #[trigger]
        next.acked(votes, id, earlier, at) implies earlier <= term && next.kept(
        votes,
        taken,
        earlier,
        at,
        term + 1,
    ) by {
        if logs.acked(votes, id, earlier, at) {
            assert(logs.kept(votes, full, earlier, at, term + 1));
            if agree(full, logs.logs[earlier], at + 1) {
                if agree(log, logs.logs[earlier], at + 1) {
                    assert(agree(full, log, at + 1));
                    assert(agree(taken, log, at + 1));
                    assert(agree(taken, next.logs[earlier], at + 1));
                } else {
                    assert(next.lacks(votes, term, earlier, at));
                    assert(earlier < term) by {
                        if earlier == term {
                            lemma_agree_self(log);
                            lemma_agree_less(log, log, log.len() as int, at + 1);
                        }
                    }
                    assert(next.lost(votes, earlier, at, term + 1));
                }
            } else {
                let later = choose|later: u64|
                    earlier < later < term + 1 && #[trigger] logs.lacks(votes, later, earlier, at);
                assert(next.lacks(votes, later, earlier, at));
            }
        } else {
            lemma_agree_less(taken, log, index + 1, at + 1);
        }
    }
    lemma_settled_grown(
        taken,
        logs,
        votes,
        next,
        votes,
        ids,
        id,
        after.commit_index as int,
        term,
        term,
    );
}

/// A node that looks at the term of a leader's message.
proof fn lemma_face(
    node: CoreView,
    term: u64,
    timeout: u64,
    logs: Logs,
    votes: Votes,
    ids: Set<u64>,
)
    requires
        site_ok(node, logs, votes, ids),
        node.timeout_start <= timeout < node.timeout_end,
    ensures
        site_ok(node.facing_leader(term, timeout), logs, votes, ids),
{
    lemma_join(node, term, timeout, logs, votes, ids);
    lemma_steady_node(node, node.facing_leader(term, timeout), node.id, logs, votes, ids);
}

/// What a node applies has been chosen.
proof fn lemma_applications_ok(
    node: CoreView,
    from: u64,
    to: u64,
    log: Log,
    logs: Logs,
    votes: Votes,
    ids: Set<u64>,
    limit: u64,
    application: Application,
)
    requires
        represents(node, log),
        node.base <= from,
        to < log.len(),
        logs.settled(votes, ids, log, to as int, limit),
        applies(node.applications(from, to), application),
    ensures
        application_ok(application, logs, votes, ids),
{
    let actions = node.applications(from, to);
    let i = choose|i: int|
        0 <= i < actions.len() && #[trigger] actions[i] == (ActionView::ApplyToStateMachine {
            index: application.index,
            command: application.command,
        });
    let index = from + 1 + i;
    assert(index <= to);
    assert(log[index] == node.log[index - node.base]);
    let (term, last) = choose|term: u64, last: int| #[trigger]
        logs.chosen(votes, ids, term, last) && term <= limit && to <= last && agree(
            log,
            logs.logs[term],
            to + 1,
        );
    lemma_agree_at(log, logs.logs[term], to + 1, index);
}

/// A node that gets entries from a leader.
proof fn lemma_entries_received(
    node: CoreView,
    envelope: Envelope,
    timeout: u64,
    logs: Logs,
    votes: Votes,
    ids: Set<u64>,
) -> (next: Logs)
    requires
        site_ok(node, logs, votes, ids),
        node.timeout_start <= timeout < node.timeout_end,
        envelope.to == node.id,
        envelope.message is AppendEntries,
        message_ok(envelope, logs, votes, ids),
        node.can_take(envelope.message),
    ensures
        step_ok(
            node.id,
            node.on_message(envelope.message, timeout),
            logs,
            votes,
            next,
            votes,
            ids,
        ),
{
    let id = node.id;
    let req = envelope.message->AppendEntries_0;
    let step = node.on_append_entries(req, timeout);
    let facing = node.facing_leader(req.term, timeout);
    lemma_face(node, req.term, timeout, logs, votes, ids);
    lemma_no_growth(logs, votes, id);
    if !facing.follows(req.term) {
        logs
    } else {
        let following = facing.following(req.leader_id, timeout);
        lemma_steady_node(facing, following, id, logs, votes, ids);
        assert(site_ok(following, logs, votes, ids));
        assert(following.current_term == req.term);
        if !following.agrees_at(req.prev_log_index, req.prev_log_term) {
            logs
        } else {
            lemma_facing_merge(node, req, timeout);
            let taken = lemma_merge(following, req, logs, votes, ids);
            let merged = following.merged(req.prev_log_index, req.entries);
            let log = logs.logs[req.term];
            let commit = merged.commit_told(req.leader_commit);
            let last = taken.len() - 1;
            let old_commit = node.commit_index as int;
            assert(merged.last_index() == last);
            assert(logs.settled(votes, ids, taken, commit as int, req.term)) by {
                if req.leader_commit > merged.commit_index {
                    lemma_settled_less(
                        log,
                        logs,
                        votes,
                        ids,
                        req.leader_commit as int,
                        commit as int,
                        req.term,
                    );
                    lemma_agree_less(taken, log, taken.len() as int, commit + 1);
                    lemma_settled_agree(
                        log,
                        taken,
                        logs,
                        votes,
                        ids,
                        commit as int,
                        req.term,
                    );
                } else {
                    let full = logs.full[id];
                    lemma_settled_is_led(full, old_commit, req.term, logs, votes, ids);
                    assert(agree(taken, log, old_commit + 1));
                    lemma_settled_agree(full, taken, logs, votes, ids, old_commit, req.term);
                }
            }
            let held = req.prev_log_index + req.entries.len();
            lemma_agree_less(taken, log, taken.len() as int, held + 1);
            let next = lemma_ack_logs(following, taken, held, logs, votes, ids);
            lemma_ack_node(following, step.state, taken, held, logs, votes, next, ids);
            lemma_settled_grown(
                taken,
                logs,
                votes,
                next,
                votes,
                ids,
                id,
                commit as int,
                req.term,
                req.term,
            );
            let applications = merged.applications(merged.commit_index, commit);
            let answer = merged.append_answer(req.leader_id, true, held as u64);
            assert(step.actions == applications.push(answer));
            assert forall|application: Application| #[trigger]
                applies(step.actions, application) implies application_ok(
                application,
                next,
                votes,
                ids,
            ) by {
                let i = choose|i: int|
                    0 <= i < step.actions.len() && #[trigger] step.actions[i] == (
                    ActionView::ApplyToStateMachine {
                        index: application.index,
                        command: application.command,
                    });
                assert(i < applications.len());
                assert(applications[i] == step.actions[i]);
                assert(applies(applications, application));
                assert(commit > merged.commit_index);
                lemma_applications_ok(
                    merged,
                    merged.commit_index,
                    commit,
                    taken,
                    next,
                    votes,
                    ids,
                    req.term,
                    application,
                );
            }
            assert forall|answered: Envelope| #[trigger]
                sends(id, step.actions, answered) implies message_ok(
                answered,
                next,
                votes,
                ids,
            ) by {
                let i = choose|i: int|
                    0 <= i < step.actions.len() && carries(id, #[trigger] step.actions[i], answered);
                assert(i == applications.len()) by {
                    if i < applications.len() {
                        assert(applications[i] == step.actions[i]);
                    }
                }
            }
            next
        }
    }
}

/// What the clock shows does not matter to what becomes of the log.
proof fn lemma_facing_merge(node: CoreView, req: AppendEntriesView, timeout: u64)
    ensures
        ({
            let facing = node.facing_leader(req.term, node.election_timeout);
            let following = node.facing_leader(req.term, timeout).following(
                req.leader_id,
                timeout,
            );
            &&& facing.merged(req.prev_log_index, req.entries).last_index() == following.merged(
                req.prev_log_index,
                req.entries,
            ).last_index()
            &&& facing.commit_index == following.commit_index
            &&& facing.follows(req.term) == following.follows(req.term)
            &&& facing.agrees_at(req.prev_log_index, req.prev_log_term) == following.agrees_at(
                req.prev_log_index,
                req.prev_log_term,
            )
        }),
{
    let facing = node.facing_leader(req.term, node.election_timeout);
    let following = node.facing_leader(req.term, timeout).following(req.leader_id, timeout);
    lemma_merged_ignores_clock(facing, following, req.prev_log_index, req.entries);
}

/// There is a highest index that more than half of the servers hold.
pub(crate) proof fn lemma_majority_exists(match_index: Map<u64, u64>, own: u64, bound: u64)
    requires
        match_index.dom().finite(),
        forall|above: u64|
            above > bound ==> 2 * #[trigger] holders(match_index, own, above)
                <= match_index.dom().len() + 1,
    ensures
        is_majority_index(match_index, own, majority_index(match_index, own)),
    decreases bound,
{
    if 2 * holders(match_index, own, bound) > match_index.dom().len() + 1 {
        assert(is_majority_index(match_index, own, bound));
    } else if bound == 0 {
        assert(match_index.dom().filter(|peer: u64| match_index[peer] >= 0u64)
            =~= match_index.dom());
    } else {
        lemma_majority_exists(match_index, own, (bound - 1) as u64);
    }
}

/// The newest entry of a leader's term in a range, if there is one.
pub(crate) proof fn lemma_newest_of_term(node: CoreView, low: u64, high: u64)
    ensures
        ({
            let newest = node.newest_of_term(low, high);
            ||| newest == low
            ||| low < newest <= high && node.term_at(newest as int) == node.current_term
        }),
    decreases high,
{
    if high > low && node.term_at(high as int) != node.current_term {
        lemma_newest_of_term(node, low, (high - 1) as u64);
    }
}

/// What a leader finds on more than half of the servers, up to an entry of its term, is chosen.
proof fn lemma_majority_is_chosen(
    node: CoreView,
    index: u64,
    logs: Logs,
    votes: Votes,
    ids: Set<u64>,
)
    requires
        site_ok(node, logs, votes, ids),
        node.state == RaftState::Leader,
        index <= node.replicated_index(),
        index <= node.last_index(),
        logs.logs[node.current_term][index as int].term == node.current_term,
    ensures
        logs.chosen(votes, ids, node.current_term, index as int),
{
    let id = node.id;
    let term = node.current_term;
    let log = logs.logs[term];
    let replicated = node.replicated_index();
    let own = node.last_index() as u64;
    assert(votes.has_led(term) && votes.leader[term] == id);
    lemma_term_log(logs, votes, ids, term);
    lemma_majority_exists(node.match_index, own, u64::MAX);
    let held = node.match_index.dom().filter(|peer: u64| node.match_index[peer] >= replicated);
    let nodes = held.insert(id);
    vstd::set_lib::lemma_len_subset(held, node.match_index.dom());
    assert(!held.contains(id));
    assert(nodes.len() == held.len() + 1);
    assert(ids.remove(id).len() == ids.len() - 1);
    assert(nodes.subset_of(ids));
    assert(quorum(nodes, ids));
    assert forall|peer: u64| #[trigger] nodes.contains(peer) implies logs.acked(
        votes,
        peer,
        term,
        index as int,
    ) by {
        if peer != id {
            let at = node.match_index[peer] as int;
            assert(node.match_index.dom().contains(peer));
            assert(match_ok(logs, votes, peer, term, at));
            assert(log[index as int].term <= log[at].term);
            assert(logs.acked(votes, peer, term, at));
            let k = choose|k: int|
                at <= k && #[trigger] logs.acks.contains(Ack { node: peer, term, index: k });
            assert(index <= k && logs.acks.contains(Ack { node: peer, term, index: k }));
        }
    }
    assert(logs.all_acked(votes, nodes, term, index as int));
}

/// A leader that learns how far a peer holds its log.
proof fn lemma_progress(
    node: CoreView,
    peer: u64,
    index: u64,
    logs: Logs,
    votes: Votes,
    ids: Set<u64>,
)
    requires
        site_ok(node, logs, votes, ids),
        node.state == RaftState::Leader,
        ids.contains(peer),
        peer != node.id,
        match_ok(logs, votes, peer, node.current_term, index as int),
    ensures
        site_ok(node.progressed(peer, index), logs, votes, ids),
{
    let after = node.progressed(peer, index);
    assert(after.match_index.dom() =~= ids.remove(node.id));
    assert(after.next_index.dom() =~= node.next_index.dom().insert(peer));
}

/// A leader that learns that a peer holds entries.
proof fn lemma_entries_held(
    node: CoreView,
    resp: AppendEntriesResponseRPC,
    timeout: u64,
    logs: Logs,
    votes: Votes,
    ids: Set<u64>,
)
    requires
        site_ok(node, logs, votes, ids),
        node.state == RaftState::Leader,
        resp.term == node.current_term,
        resp.success,
        ids.contains(resp.id),
        resp.id != node.id,
        node.can_append_entries_response(resp),
        match_ok(logs, votes, resp.id, node.current_term, resp.match_index as int),
    ensures
        step_ok(
            node.id,
            node.on_append_entries_response(resp, timeout),
            logs,
            votes,
            logs,
            votes,
            ids,
        ),
{
    let id = node.id;
    let term = node.current_term;
    let step = node.on_append_entries_response(resp, timeout);
    lemma_no_growth(logs, votes, id);
    assert(node.joined_term(resp.term, timeout) == node);
    let progressed = node.progressed(resp.id, resp.match_index);
    lemma_progress(node, resp.id, resp.match_index, logs, votes, ids);
    let low = node.commit_index;
    let high = progressed.replicated_index();
    let commit = progressed.newest_of_term(low, high);
    lemma_newest_of_term(progressed, low, high);
    let full = logs.full[id];
    assert(logs.settled(votes, ids, full, commit as int, term)) by {
        if commit != low {
            assert(full[commit as int] == node.log[commit - node.base]);
            lemma_majority_is_chosen(progressed, commit, logs, votes, ids);
            lemma_agree_self(full);
            lemma_agree_less(full, full, full.len() as int, commit + 1);
            assert(logs.chosen(votes, ids, term, commit as int) && agree(
                full,
                logs.logs[term],
                commit + 1,
            ));
        }
    }
    assert(node_ok(step.state, id, logs, votes, ids));
    assert forall|application: Application| #[trigger]
        applies(step.actions, application) implies application_ok(
        application,
        logs,
        votes,
        ids,
    ) by {
        assert(commit != low);
        lemma_applications_ok(
            progressed,
            low,
            commit,
            full,
            logs,
            votes,
            ids,
            term,
            application,
        );
    }
}

/// A node that gets an answer to entries.
proof fn lemma_entries_answered(
    node: CoreView,
    envelope: Envelope,
    timeout: u64,
    logs: Logs,
    votes: Votes,
    ids: Set<u64>,
)
    requires
        site_ok(node, logs, votes, ids),
        node.timeout_start <= timeout < node.timeout_end,
        envelope.to == node.id,
        envelope.message is AppendEntriesResponse,
        message_ok(envelope, logs, votes, ids),
        node.can_take(envelope.message),
    ensures
        step_ok(
            node.id,
            node.on_message(envelope.message, timeout),
            logs,
            votes,
            logs,
            votes,
            ids,
        ),
{
    let id = node.id;
    let term = node.current_term;
    let resp = envelope.message->AppendEntriesResponse_0;
    let step = node.on_append_entries_response(resp, timeout);
    let joined = node.joined_term(resp.term, timeout);
    lemma_no_growth(logs, votes, id);
    lemma_join(node, resp.term, timeout, logs, votes, ids);
    if joined.heeds(resp) {
        assert(joined == node);
        if resp.success {
            assert(match_ok(logs, votes, resp.id, term, resp.match_index as int)) by {
                reveal(logs_ok);
                assert(logs.acks.contains(
                    Ack { node: resp.id, term, index: resp.match_index as int },
                ));
                assert(votes.has_led(term));
            }
            lemma_entries_held(node, resp, timeout, logs, votes, ids);
        } else {
            let state = node.stepped_back(resp.id);
            lemma_steady_node(node, state, id, logs, votes, ids);
            assert(site_ok(state, logs, votes, ids));
            assert forall|answered: Envelope| #[trigger]
                sends(id, step.actions, answered) implies message_ok(
                answered,
                logs,
                votes,
                ids,
            ) by {
                assert(carries(id, step.actions[0], answered));
                lemma_replication_ok(state, logs, votes, ids, resp.id, answered);
            }
        }
    }
}

// ------------------------------------------------------------------------------------- snapshots

/// A node that says how far it holds the log of its term's leader.
proof fn lemma_ack_held(
    node: CoreView,
    index: int,
    logs: Logs,
    votes: Votes,
    ids: Set<u64>,
) -> (next: Logs)
    requires
        site_ok(node, logs, votes, ids),
        votes.has_led(node.current_term),
        0 <= index <= node.commit_index,
    ensures
        logs_grow(logs, votes, next, votes, node.id),
        logs_ok(next, votes, ids),
        node_ok(node, node.id, next, votes, ids),
        next.acks.contains(Ack { node: node.id, term: node.current_term, index }),
        forall|ack: Ack| #[trigger]
            next.acks.contains(ack) ==> logs.acks.contains(ack) || ack.term == node.current_term,
{
    let id = node.id;
    let term = node.current_term;
    let full = logs.full[id];
    let log = logs.logs[term];
    lemma_settled_is_led(full, node.commit_index as int, term, logs, votes, ids);
    lemma_agree_less(full, log, node.commit_index + 1, index + 1);
    let next = lemma_ack_logs(node, full, index, logs, votes, ids);
    lemma_sound_grown(full, logs, votes, next, votes, id);
    if node.state == RaftState::Leader {
        assert forall|peer: u64| #[trigger] node.match_index.dom().contains(peer) implies match_ok(
            next,
            votes,
            peer,
            term,
            node.match_index[peer] as int,
        ) by {
            lemma_match_grown(
                logs,
                votes,
                next,
                votes,
                id,
                peer,
                term,
                node.match_index[peer] as int,
            );
        }
    }
    assert forall|earlier: u64, at: int| #[trigger]
        next.acked(votes, id, earlier, at) implies earlier <= term && next.kept(
        votes,
        full,
        earlier,
        at,
        term + 1,
    ) by {
        if logs.acked(votes, id, earlier, at) {
            lemma_kept_grown(
                full,
                logs,
                votes,
                next,
                votes,
                ids,
                id,
                earlier,
                at,
                term + 1,
            );
        } else {
            lemma_agree_less(full, log, index + 1, at + 1);
        }
    }
    lemma_settled_grown(
        full,
        logs,
        votes,
        next,
        votes,
        ids,
        id,
        node.commit_index as int,
        term,
        term,
    );
    next
}

/// A node that installs a snapshot and holds the last entry that it covers.
proof fn lemma_install_held(
    following: CoreView,
    state: CoreView,
    req: InstallSnapshotView,
    logs: Logs,
    votes: Votes,
    ids: Set<u64>,
)
    requires
        site_ok(following, logs, votes, ids),
        following.state == RaftState::Follower,
        following.current_term == req.term,
        snapshot_ok(req, logs, votes, ids),
        following.commit_index < req.last_included_index <= following.last_index(),
        following.term_at(req.last_included_index as int) == req.last_included_term,
        state == following.installed(req.last_included_index, req.last_included_term),
    ensures
        site_ok(state, logs, votes, ids),
{
    let id = following.id;
    let index = req.last_included_index as int;
    let full = logs.full[id];
    let (earlier, last) = choose|earlier: u64, last: int| #[trigger]
        logs.chosen(votes, ids, earlier, last) && earlier <= req.term && index <= last
            && logs.logs[earlier][index].term == req.last_included_term;
    let kept = following.entries_after(req.last_included_index, req.last_included_term);
    lemma_term_log(logs, votes, ids, earlier);
    assert(full[index] == following.log[index - following.base]);
    lemma_same_entry(full, logs.logs[earlier], index, votes, logs.logs);
    assert(logs.chosen(votes, ids, earlier, last) && agree(full, logs.logs[earlier], index + 1));
    assert(represents(state, full)) by {
        assert forall|i: int| state.base < i < full.len() implies #[trigger] full[i]
            == state.log[i - state.base] by {
            assert(full[i] == following.log[i - following.base]);
            assert(kept[i - index - 1] == following.log[i - following.base]);
        }
    }
}

/// A node that installs a snapshot in a term that has a leader.
proof fn lemma_install_led(
    following: CoreView,
    state: CoreView,
    req: InstallSnapshotView,
    logs: Logs,
    votes: Votes,
    ids: Set<u64>,
) -> (next: Logs)
    requires
        site_ok(following, logs, votes, ids),
        following.state == RaftState::Follower,
        following.current_term == req.term,
        snapshot_ok(req, logs, votes, ids),
        votes.has_led(req.term),
        following.last_index() < req.last_included_index || following.term_at(
            req.last_included_index as int,
        ) != req.last_included_term,
        following.commit_index < req.last_included_index < u64::MAX,
        state == following.installed(req.last_included_index, req.last_included_term),
    ensures
        logs_grow(logs, votes, next, votes, following.id),
        logs_ok(next, votes, ids),
        node_ok(state, following.id, next, votes, ids),
        next.acks.contains(
            Ack {
                node: following.id,
                term: req.term,
                index: req.last_included_index as int,
            },
        ),
        forall|ack: Ack| #[trigger]
            next.acks.contains(ack) ==> logs.acks.contains(ack) || ack.term == req.term,
{
    let id = following.id;
    let term = req.term;
    let index = req.last_included_index as int;
    let log = logs.logs[term];
    let full = logs.full[id];
    let taken = log.take(index + 1);
    let (earlier, last) = choose|earlier: u64, last: int| #[trigger]
        logs.chosen(votes, ids, earlier, last) && earlier <= term && index <= last
            && logs.logs[earlier][index].term == req.last_included_term;
    lemma_leader_completeness(logs, votes, ids, earlier, last, term);
    lemma_agree_at(log, logs.logs[earlier], last + 1, index);
    lemma_agree_less(log, logs.logs[earlier], last + 1, index + 1);
    lemma_term_log(logs, votes, ids, term);
    lemma_sound_take(log, index + 1, votes, logs.logs);
    assert(taken.take(index + 1) =~= log.take(index + 1));
    assert forall|n: int| #[trigger] agree(full, log, n) implies agree(taken, log, n) by {
        if n > index + 1 {
            lemma_agree_at(full, log, n, index);
            assert(full[index] == following.log[index - following.base]);
        }
        assert(taken.take(n) =~= log.take(n));
    }
    assert(log[index].term <= log[log.len() - 1].term);
    assert(logs.chosen(votes, ids, earlier, last) && agree(log, logs.logs[earlier], index + 1));
    lemma_settled_agree(log, taken, logs, votes, ids, index, term);
    let next = lemma_ack_logs(following, taken, index, logs, votes, ids);
    lemma_ack_node(following, state, taken, index, logs, votes, next, ids);
    next
}

/// A node that installs a snapshot in a term that has no leader.
proof fn lemma_install_unled(
    following: CoreView,
    state: CoreView,
    req: InstallSnapshotView,
    logs: Logs,
    votes: Votes,
    ids: Set<u64>,
) -> (next: Logs)
    requires
        site_ok(following, logs, votes, ids),
        following.state == RaftState::Follower,
        following.current_term == req.term,
        snapshot_ok(req, logs, votes, ids),
        !votes.has_led(req.term),
        following.last_index() < req.last_included_index || following.term_at(
            req.last_included_index as int,
        ) != req.last_included_term,
        following.commit_index < req.last_included_index < u64::MAX,
        state == following.installed(req.last_included_index, req.last_included_term),
    ensures
        logs_grow(logs, votes, next, votes, following.id),
        logs_ok(next, votes, ids),
        node_ok(state, following.id, next, votes, ids),
        settled_before(next, votes, ids, req.last_included_index as int, req.term),
        next.acks == logs.acks,
{
    let id = following.id;
    let term = req.term;
    let index = req.last_included_index as int;
    let full = logs.full[id];
    let (earlier, last) = choose|earlier: u64, last: int| #[trigger]
        logs.chosen(votes, ids, earlier, last) && earlier <= term && index <= last
            && logs.logs[earlier][index].term == req.last_included_term;
    let log = logs.logs[earlier];
    let taken = log.take(index + 1);
    let next = Logs { full: logs.full.insert(id, taken), ..logs };
    lemma_no_growth(logs, votes, id);
    assert(logs_grow(logs, votes, next, votes, id));
    lemma_logs_step(logs, votes, next, votes, ids, id);
    lemma_term_log(logs, votes, ids, earlier);
    lemma_sound_take(log, index + 1, votes, logs.logs);
    lemma_sound_grown(taken, logs, votes, next, votes, id);
    assert(taken.take(index + 1) =~= log.take(index + 1));
    assert(log[index].term <= log[log.len() - 1].term);
    assert forall|acked: u64, at: int| #[trigger]
        next.acked(votes, id, acked, at) implies acked <= term && next.kept(
        votes,
        taken,
        acked,
        at,
        term + 1,
    ) by {
        assert(logs.acked(votes, id, acked, at));
        assert(logs.kept(votes, full, acked, at, term + 1));
        lemma_kept_installed(following, req, logs, votes, ids, earlier, last, acked, at);
        if !agree(taken, logs.logs[acked], at + 1) {
            let later = choose|later: u64|
                acked < later < term + 1 && #[trigger] logs.lacks(votes, later, acked, at);
            assert(next.lacks(votes, later, acked, at));
        }
    }
    assert(next.chosen(votes, ids, earlier, last)) by {
        lemma_chosen_grown(logs, votes, next, votes, ids, id, earlier, last);
    }
    assert(next.settled(votes, ids, taken, index, term));
    next
}

/// What a node has told a leader it holds, it still holds after a snapshot, unless a later leader
/// did not.
proof fn lemma_kept_installed(
    node: CoreView,
    req: InstallSnapshotView,
    logs: Logs,
    votes: Votes,
    ids: Set<u64>,
    earlier: u64,
    last: int,
    acked: u64,
    at: int,
)
    requires
        site_ok(node, logs, votes, ids),
        logs.chosen(votes, ids, earlier, last),
        earlier <= node.current_term,
        node.commit_index < req.last_included_index <= last,
        logs.logs[earlier][req.last_included_index as int].term == req.last_included_term,
        node.last_index() <= req.last_included_index || node.term_at(
            req.last_included_index as int,
        ) != req.last_included_term,
        logs.acked(votes, node.id, acked, at),
    ensures
        logs.kept(
            votes,
            logs.logs[earlier].take(req.last_included_index + 1),
            acked,
            at,
            node.current_term + 1,
        ),
{
    let index = req.last_included_index as int;
    let full = logs.full[node.id];
    let log = logs.logs[earlier];
    let held = logs.logs[acked];
    let taken = log.take(index + 1);
    assert(logs.kept(votes, full, acked, at, node.current_term + 1));
    if agree(full, held, at + 1) && !agree(taken, held, at + 1) {
        if acked >= earlier {
            lemma_leader_completeness(logs, votes, ids, earlier, last, acked);
            if at > index {
                lemma_agree_at(held, log, last + 1, index);
                lemma_agree_at(full, held, at + 1, index);
                assert(full[index] == node.log[index - node.base]);
            } else {
                lemma_agree_less(held, log, last + 1, at + 1);
                assert(taken.take(at + 1) =~= log.take(at + 1));
            }
            assert(false);
        } else {
            if agree(log, held, at + 1) {
                if at > index {
                    lemma_agree_at(log, held, at + 1, index);
                    lemma_agree_at(full, held, at + 1, index);
                    assert(full[index] == node.log[index - node.base]);
                } else {
                    assert(taken.take(at + 1) =~= log.take(at + 1));
                }
                assert(false);
            }
            assert(logs.lacks(votes, earlier, acked, at));
        }
    }
}

/// A node that gets a snapshot from a leader.
proof fn lemma_snapshot_received(
    node: CoreView,
    envelope: Envelope,
    timeout: u64,
    logs: Logs,
    votes: Votes,
    ids: Set<u64>,
) -> (next: Logs)
    requires
        site_ok(node, logs, votes, ids),
        node.timeout_start <= timeout < node.timeout_end,
        envelope.to == node.id,
        envelope.message is InstallSnapshot,
        message_ok(envelope, logs, votes, ids),
        node.can_take(envelope.message),
    ensures
        step_ok(
            node.id,
            node.on_message(envelope.message, timeout),
            logs,
            votes,
            next,
            votes,
            ids,
        ),
{
    let id = node.id;
    let req = envelope.message->InstallSnapshot_0;
    let step = node.on_install_snapshot(req, timeout);
    let facing = node.facing_leader(req.term, timeout);
    lemma_face(node, req.term, timeout, logs, votes, ids);
    lemma_no_growth(logs, votes, id);
    if !facing.follows(req.term) {
        if votes.has_led(facing.current_term) {
            lemma_ack_held(facing, facing.base as int, logs, votes, ids)
        } else {
            lemma_settled_unled(facing, facing.base as int, logs, votes, ids);
            logs
        }
    } else {
        let following = facing.following(req.leader_id, timeout);
        let index = req.last_included_index as int;
        lemma_steady_node(facing, following, id, logs, votes, ids);
        assert(site_ok(following, logs, votes, ids));
        assert(following.current_term == req.term);
        if index <= following.commit_index {
            if votes.has_led(req.term) {
                lemma_ack_held(following, index, logs, votes, ids)
            } else {
                lemma_settled_unled(following, index, logs, votes, ids);
                logs
            }
        } else if following.last_index() >= index && following.term_at(index)
            == req.last_included_term {
            // the log has all that the snapshot covers, and stays what it is
            lemma_install_held(following, step.state, req, logs, votes, ids);
            if votes.has_led(req.term) {
                lemma_ack_held(step.state, index, logs, votes, ids)
            } else {
                lemma_settled_unled(step.state, index, logs, votes, ids);
                logs
            }
        } else if votes.has_led(req.term) {
            lemma_install_led(following, step.state, req, logs, votes, ids)
        } else {
            lemma_install_unled(following, step.state, req, logs, votes, ids)
        }
    }
}

/// What a node has committed in a term without a leader was chosen before.
proof fn lemma_settled_unled(
    node: CoreView,
    index: int,
    logs: Logs,
    votes: Votes,
    ids: Set<u64>,
)
    requires
        site_ok(node, logs, votes, ids),
        !votes.has_led(node.current_term),
        0 <= index <= node.commit_index,
    ensures
        settled_before(logs, votes, ids, index, node.current_term),
{
    let full = logs.full[node.id];
    let term = node.current_term;
    lemma_settled_less(full, logs, votes, ids, node.commit_index as int, index, term);
    if index != 0 {
        let (earlier, last) = choose|earlier: u64, last: int| #[trigger]
            logs.chosen(votes, ids, earlier, last) && earlier <= term && index <= last && agree(
                full,
                logs.logs[earlier],
                index + 1,
            );
        assert(logs.chosen(votes, ids, earlier, last) && earlier < term);
    }
}

/// A node that hears that a peer has taken over a snapshot.
proof fn lemma_snapshot_answered(
    node: CoreView,
    envelope: Envelope,
    timeout: u64,
    logs: Logs,
    votes: Votes,
    ids: Set<u64>,
)
    requires
        site_ok(node, logs, votes, ids),
        node.timeout_start <= timeout < node.timeout_end,
        envelope.to == node.id,
        envelope.message is InstallSnapshotResponse,
        message_ok(envelope, logs, votes, ids),
        node.can_take(envelope.message),
    ensures
        step_ok(
            node.id,
            node.on_message(envelope.message, timeout),
            logs,
            votes,
            logs,
            votes,
            ids,
        ),
{
    let id = node.id;
    let resp = envelope.message->InstallSnapshotResponse_0;
    let index = resp.last_included_index as int;
    let joined = node.joined_term(resp.term, timeout);
    lemma_no_growth(logs, votes, id);
    lemma_join(node, resp.term, timeout, logs, votes, ids);
    if joined.state == RaftState::Leader && resp.term == joined.current_term {
        let term = joined.current_term;
        let log = logs.logs[term];
        assert(votes.has_led(term));
        lemma_term_log(logs, votes, ids, term);
        assert(match_ok(logs, votes, resp.id, term, index)) by {
            let ack = Ack { node: resp.id, term, index };
            if logs.acks.contains(ack) {
                reveal(logs_ok);
            } else if index == 0 {
                assert(log[0].term == 0);
                assert(rooted(log, log[log.len() - 1].term, log.len() - 1, votes, logs.logs));
            } else {
                let (earlier, last) = choose|earlier: u64, last: int| #[trigger]
                    logs.chosen(votes, ids, earlier, last) && earlier < term && index <= last;
                lemma_leader_completeness(logs, votes, ids, earlier, last, term);
                lemma_agree_at(log, logs.logs[earlier], last + 1, index);
                lemma_term_log(logs, votes, ids, earlier);
                assert(logs.logs[earlier][index].term <= logs.logs[earlier][last].term);
            }
        }
        lemma_progress(joined, resp.id, resp.last_included_index, logs, votes, ids);
    }
}

/// A snapshot takes the place of entries, or a node restarts.
proof fn lemma_compact_or_restart(
    node: CoreView,
    event: Event,
    logs: Logs,
    votes: Votes,
    ids: Set<u64>,
)
    requires
        site_ok(node, logs, votes, ids),
        event matches Event::Compact { index, .. } ==> node.can_compact(index),
        event matches Event::Restart { timeout, .. } ==> node.timeout_start <= timeout
            < node.timeout_end,
        event is Compact || event is Restart,
    ensures
        step_ok(node.id, outcome(node, event), logs, votes, logs, votes, ids),
{
    let id = node.id;
    let full = logs.full[id];
    let state = outcome(node, event).state;
    lemma_no_growth(logs, votes, id);
    match event {
        Event::Compact { index, .. } => {
            assert(represents(state, full)) by {
                let rest = node.log.skip(index - node.base + 1);
                assert(full[index as int].term == node.term_at(index as int));
                assert forall|i: int| state.base < i < full.len() implies #[trigger] full[i]
                    == state.log[i - state.base] by {
                    assert(full[i] == node.log[i - node.base]);
                    assert(rest[i - index - 1] == node.log[i - node.base]);
                }
            }
        },
        _ => {},
    }
    lemma_steady_node(node, state, id, logs, votes, ids);
}

// ------------------------------------------------------------------------------------------ runs

/// A message that is delivered.
proof fn lemma_deliver(cluster: Cluster, event: Event, logs: Logs, votes: Votes) -> (next: Logs)
    requires
        cluster_ok(cluster, logs, votes),
        enabled(cluster, event),
        event is Deliver,
    ensures
        event_ok(cluster, event, logs, votes, next),
{
    reveal(cluster_ok);
    let ids = cluster.nodes.dom();
    let id = event.node();
    let node = cluster.nodes[id];
    let timeout = event->Deliver_timeout;
    let envelope = event->envelope;
    let step = node.on_message(envelope.message, timeout);
    let state = outcome(node, event).state;
    let votes_next = votes.extended(event, node, state);
    assert(voter_ok(node, id, votes, ids));
    assert(node_ok(node, id, logs, votes, ids));
    assert(vote_message_ok(envelope, votes, ids));
    assert(message_ok(envelope, logs, votes, ids));
    lemma_elections_step(cluster, event, votes);
    assert(after(cluster, event).nodes.dom() =~= ids);
    assert(after(cluster, event).nodes[id] == state);
    assert(voter_ok(state, id, votes_next, ids));
    let next = match envelope.message {
        MessageView::RequestVote(req) => {
            let joined = node.joined_term(req.term, timeout);
            assert(votes_next =~= if joined.grants(req) {
                Votes {
                    choice: votes.choice.insert(
                        Turn { node: id, term: joined.current_term },
                        req.candidate_id,
                    ),
                    ..votes
                }
            } else {
                votes
            });
            lemma_vote_requested(node, envelope, timeout, logs, votes, votes_next, ids)
        },
        MessageView::RequestVoteResponse(_) => {
            if wins(node, state) {
                let term = state.current_term;
                if votes.has_led(term) {
                    assert(votes_next.leader.dom().contains(term));
                    assert(votes.leader[term] == votes_next.leader[term]);
                }
            }
            assert(votes_next =~= if wins(node, step.state) {
                Votes {
                    leader: votes.leader.insert(step.state.current_term, id),
                    voters: votes.voters.insert(step.state.current_term, step.state.votes_received),
                    ..votes
                }
            } else {
                votes
            });
            assert(voter_ok(step.state, id, votes_next, ids));
            lemma_vote_answered(node, envelope, timeout, logs, votes, votes_next, ids)
        },
        MessageView::AppendEntries(_) => {
            assert(votes_next =~= votes);
            lemma_entries_received(node, envelope, timeout, logs, votes, ids)
        },
        MessageView::AppendEntriesResponse(_) => {
            assert(votes_next =~= votes);
            lemma_entries_answered(node, envelope, timeout, logs, votes, ids);
            logs
        },
        MessageView::InstallSnapshot(_) => {
            assert(votes_next =~= votes);
            lemma_snapshot_received(node, envelope, timeout, logs, votes, ids)
        },
        MessageView::InstallSnapshotResponse(_) => {
            assert(votes_next =~= votes);
            lemma_snapshot_answered(node, envelope, timeout, logs, votes, ids);
            logs
        },
    };
    lemma_settle(step, logs, votes, next, votes_next, ids);
    next
}

/// An event leads from a cluster in order to a cluster in order.
proof fn lemma_event(cluster: Cluster, event: Event, logs: Logs, votes: Votes) -> (next: Logs)
    requires
        cluster_ok(cluster, logs, votes),
        enabled(cluster, event),
    ensures
        event_ok(cluster, event, logs, votes, next),
        ({
            let node = cluster.nodes[event.node()];
            cluster_ok(
                after(cluster, event),
                next,
                votes.extended(event, node, outcome(node, event).state),
            )
        }),
{
    reveal(cluster_ok);
    let next = match event {
        Event::Tick { .. } => lemma_tick(cluster, event, logs, votes),
        Event::Propose { .. } => lemma_client(cluster, event, logs, votes),
        Event::Read { .. } => lemma_client(cluster, event, logs, votes),
        Event::Deliver { .. } => lemma_deliver(cluster, event, logs, votes),
        _ => {
            let ids = cluster.nodes.dom();
            let node = cluster.nodes[event.node()];
            assert(voter_ok(node, event.node(), votes, ids));
            assert(node_ok(node, event.node(), logs, votes, ids));
            lemma_compact_or_restart(node, event, logs, votes, ids);
            assert(votes.extended(event, node, outcome(node, event).state) =~= votes);
            logs
        },
    };
    lemma_close(cluster, event, logs, votes, next);
    next
}

/// The logs of a cluster that starts.
pub open spec fn first_logs(ids: Set<u64>) -> Logs {
    Logs {
        full: Map::new(|id: u64| ids.contains(id), |id: u64| seq![placeholder(0)]),
        logs: Map::empty(),
        own: Map::empty(),
        ballot: Map::empty(),
        acks: Set::empty(),
    }
}

proof fn lemma_start(start: Cluster)
    requires
        initial(start),
    ensures
        cluster_ok(start, first_logs(start.nodes.dom()), Votes::none()),
{
    reveal(cluster_ok);
    reveal(logs_ok);
    let ids = start.nodes.dom();
    let logs = first_logs(ids);
    let votes = Votes::none();
    assert forall|id: u64| #[trigger] ids.contains(id) implies node_ok(
        start.nodes[id],
        id,
        logs,
        votes,
        ids,
    ) && voter_ok(start.nodes[id], id, votes, ids) by {
        assert(is_fresh(start.nodes[id], id, ids));
    }
}

/// Every cluster that a run leads to is in order.
proof fn lemma_run(start: Cluster, events: Seq<Event>, n: nat) -> (logs: Logs)
    requires
        is_run(start, events),
        n <= events.len(),
    ensures
        cluster_ok(reached(start, events, n), logs, votes_at(start, events, n)),
    decreases n,
{
    if n == 0 {
        lemma_start(start);
        first_logs(start.nodes.dom())
    } else {
        let m = (n - 1) as nat;
        let logs = lemma_run(start, events, m);
        assert(enabled(reached(start, events, m), events[m as int]));
        lemma_event(reached(start, events, m), events[m as int], logs, votes_at(start, events, m))
    }
}

/// Whether the logs of a later cluster go on from those of an earlier one: each leader's log has
/// only become longer, and a node does not tell the leader of a term any more that it holds entries
/// once it has reached a later term.
#[verifier::opaque]
pub open spec fn goes_on(
    cluster: Cluster,
    logs: Logs,
    votes: Votes,
    later: Cluster,
    logs_later: Logs,
    votes_later: Votes,
) -> bool {
    &&& later.nodes.dom() == cluster.nodes.dom()
    &&& forall|id: u64| #[trigger]
        cluster.nodes.dom().contains(id) ==> cluster.nodes[id].current_term
            <= later.nodes[id].current_term
    &&& forall|term: u64| #[trigger]
        votes.has_led(term) ==> votes_later.has_led(term) && votes_later.leader[term]
            == votes.leader[term] && agree(
            logs.logs[term],
            logs_later.logs[term],
            logs.logs[term].len() as int,
        )
    &&& forall|ack: Ack| #[trigger]
        logs_later.acks.contains(ack) ==> logs.acks.contains(ack) || cluster.nodes[ack.node].current_term
            <= ack.term
}

/// Every cluster that a run leads to is in order, and goes on from the earlier ones.
pub(crate) proof fn lemma_run_since(
    start: Cluster,
    events: Seq<Event>,
    m: nat,
    n: nat,
) -> (both: (Logs, Logs))
    requires
        is_run(start, events),
        m <= n <= events.len(),
    ensures
        cluster_ok(reached(start, events, m), both.0, votes_at(start, events, m)),
        cluster_ok(reached(start, events, n), both.1, votes_at(start, events, n)),
        goes_on(
            reached(start, events, m),
            both.0,
            votes_at(start, events, m),
            reached(start, events, n),
            both.1,
            votes_at(start, events, n),
        ),
    decreases n,
{
    if n == m {
        let logs = lemma_run(start, events, m);
        lemma_goes_on_from_itself(reached(start, events, m), logs, votes_at(start, events, m));
        (logs, logs)
    } else {
        let k = (n - 1) as nat;
        let (first, logs) = lemma_run_since(start, events, m, k);
        assert(enabled(reached(start, events, k), events[k as int]));
        let next = lemma_event(
            reached(start, events, k),
            events[k as int],
            logs,
            votes_at(start, events, k),
        );
        lemma_goes_on(
            reached(start, events, m),
            first,
            votes_at(start, events, m),
            reached(start, events, k),
            events[k as int],
            logs,
            votes_at(start, events, k),
            next,
        );
        (first, next)
    }
}

proof fn lemma_goes_on_from_itself(cluster: Cluster, logs: Logs, votes: Votes)
    ensures
        goes_on(cluster, logs, votes, cluster, logs, votes),
{
    reveal(goes_on);
    assert forall|term: u64| #[trigger] votes.has_led(term) implies agree(
        logs.logs[term],
        logs.logs[term],
        logs.logs[term].len() as int,
    ) by {
        lemma_agree_self(logs.logs[term]);
    }
}

/// A cluster goes on from an earlier one with one more event.
proof fn lemma_goes_on(
    cluster: Cluster,
    logs: Logs,
    votes: Votes,
    later: Cluster,
    event: Event,
    logs_later: Logs,
    votes_later: Votes,
    next: Logs,
)
    requires
        goes_on(cluster, logs, votes, later, logs_later, votes_later),
        cluster_ok(later, logs_later, votes_later),
        enabled(later, event),
        event_ok(later, event, logs_later, votes_later, next),
    ensures
        ({
            let node = later.nodes[event.node()];
            goes_on(
                cluster,
                logs,
                votes,
                after(later, event),
                next,
                votes_later.extended(event, node, outcome(node, event).state),
            )
        }),
{
    reveal(cluster_ok);
    let id = event.node();
    let node = later.nodes[id];
    let state = outcome(node, event).state;
    let votes_next = votes_later.extended(event, node, state);
    reveal(goes_on);
    assert(node_ok(node, id, logs_later, votes_later, later.nodes.dom()));
    law_terms_never_fall(node, event);
    assert(after(later, event).nodes.dom() =~= later.nodes.dom());
    assert forall|term: u64| #[trigger] votes.has_led(term) implies votes_next.has_led(term)
        && votes_next.leader[term] == votes.leader[term] && agree(
        logs.logs[term],
        next.logs[term],
        logs.logs[term].len() as int,
    ) by {
        let len = logs.logs[term].len() as int;
        assert(votes_later.has_led(term));
        assert(votes_next.leader.dom().contains(term));
        lemma_agree_less(
            logs_later.logs[term],
            next.logs[term],
            logs_later.logs[term].len() as int,
            len,
        );
    }
    assert forall|ack: Ack| #[trigger] next.acks.contains(ack) implies logs.acks.contains(ack)
        || cluster.nodes[ack.node].current_term <= ack.term by {
        if !logs_later.acks.contains(ack) {
            assert(ack.node == id && ack.term == state.current_term);
        }
    }
}

/// State machine safety: no two nodes ever apply different commands at the same index, nor does a
/// node when it applies an index again after a restart.
pub proof fn law_state_machine_safety(
    start: Cluster,
    events: Seq<Event>,
    a: Application,
    b: Application,
)
    requires
        is_run(start, events),
        reached(start, events, events.len()).applied.contains(a),
        reached(start, events, events.len()).applied.contains(b),
        a.index == b.index,
    ensures
        a.command == b.command,
{
    reveal(cluster_ok);
    let cluster = reached(start, events, events.len());
    let votes = votes_at(start, events, events.len());
    let ids = cluster.nodes.dom();
    let logs = lemma_run(start, events, events.len());
    let index = a.index as int;
    assert(application_ok(a, logs, votes, ids));
    assert(application_ok(b, logs, votes, ids));
    let (term_a, last_a) = choose|term: u64, last: int| #[trigger]
        logs.chosen(votes, ids, term, last) && 0 <= index <= last
            && logs.logs[term][index].command == a.command;
    let (term_b, last_b) = choose|term: u64, last: int| #[trigger]
        logs.chosen(votes, ids, term, last) && 0 <= index <= last
            && logs.logs[term][index].command == b.command;
    if term_a <= term_b {
        lemma_leader_completeness(logs, votes, ids, term_a, last_a, term_b);
        lemma_agree_at(logs.logs[term_b], logs.logs[term_a], last_a + 1, index);
    } else {
        lemma_leader_completeness(logs, votes, ids, term_b, last_b, term_a);
        lemma_agree_at(logs.logs[term_a], logs.logs[term_b], last_b + 1, index);
    }
}

/// Log matching: two nodes whose logs have entries of the same term at the same index have the same
/// entries up to there, as far as neither has replaced them by a snapshot.
pub proof fn law_log_matching(
    start: Cluster,
    events: Seq<Event>,
    a: u64,
    b: u64,
    index: int,
    below: int,
)
    requires
        is_run(start, events),
        reached(start, events, events.len()).nodes.dom().contains(a),
        reached(start, events, events.len()).nodes.dom().contains(b),
        ({
            let x = reached(start, events, events.len()).nodes[a];
            let y = reached(start, events, events.len()).nodes[b];
            &&& x.base < below <= index <= x.last_index()
            &&& y.base < below <= index <= y.last_index()
            &&& x.term_at(index) == y.term_at(index)
        }),
    ensures
        ({
            let x = reached(start, events, events.len()).nodes[a];
            let y = reached(start, events, events.len()).nodes[b];
            x.log[below - x.base] == y.log[below - y.base]
        }),
{
    reveal(cluster_ok);
    let cluster = reached(start, events, events.len());
    let votes = votes_at(start, events, events.len());
    let ids = cluster.nodes.dom();
    let logs = lemma_run(start, events, events.len());
    let x = cluster.nodes[a];
    let y = cluster.nodes[b];
    assert(node_ok(x, a, logs, votes, ids));
    assert(node_ok(y, b, logs, votes, ids));
    let log_a = logs.full[a];
    let log_b = logs.full[b];
    assert(log_a[index] == x.log[index - x.base] && log_b[index] == y.log[index - y.base]);
    assert(log_a[below] == x.log[below - x.base] && log_b[below] == y.log[below - y.base]);
    lemma_same_entry(log_a, log_b, index, votes, logs.logs);
    lemma_agree_at(log_a, log_b, index + 1, below);
}

/// Committed entries agree: two nodes that have committed an index have the same entry there, as far
/// as neither has replaced it by a snapshot.
pub proof fn law_committed_entries_agree(
    start: Cluster,
    events: Seq<Event>,
    a: u64,
    b: u64,
    index: int,
)
    requires
        is_run(start, events),
        reached(start, events, events.len()).nodes.dom().contains(a),
        reached(start, events, events.len()).nodes.dom().contains(b),
        ({
            let x = reached(start, events, events.len()).nodes[a];
            let y = reached(start, events, events.len()).nodes[b];
            &&& x.base < index <= x.commit_index
            &&& y.base < index <= y.commit_index
        }),
    ensures
        ({
            let x = reached(start, events, events.len()).nodes[a];
            let y = reached(start, events, events.len()).nodes[b];
            &&& index <= x.last_index()
            &&& index <= y.last_index()
            &&& x.log[index - x.base] == y.log[index - y.base]
        }),
{
    reveal(cluster_ok);
    let cluster = reached(start, events, events.len());
    let votes = votes_at(start, events, events.len());
    let ids = cluster.nodes.dom();
    let logs = lemma_run(start, events, events.len());
    let x = cluster.nodes[a];
    let y = cluster.nodes[b];
    assert(node_ok(x, a, logs, votes, ids));
    assert(node_ok(y, b, logs, votes, ids));
    let log_a = logs.full[a];
    let log_b = logs.full[b];
    let (term_a, last_a) = choose|term: u64, last: int| #[trigger]
        logs.chosen(votes, ids, term, last) && term <= x.current_term && x.commit_index <= last
            && agree(log_a, logs.logs[term], x.commit_index + 1);
    let (term_b, last_b) = choose|term: u64, last: int| #[trigger]
        logs.chosen(votes, ids, term, last) && term <= y.current_term && y.commit_index <= last
            && agree(log_b, logs.logs[term], y.commit_index + 1);
    lemma_agree_at(log_a, logs.logs[term_a], x.commit_index + 1, index);
    lemma_agree_at(log_b, logs.logs[term_b], y.commit_index + 1, index);
    assert(log_a[index] == x.log[index - x.base] && log_b[index] == y.log[index - y.base]);
    if term_a <= term_b {
        lemma_leader_completeness(logs, votes, ids, term_a, last_a, term_b);
        lemma_agree_at(logs.logs[term_b], logs.logs[term_a], last_a + 1, index);
    } else {
        lemma_leader_completeness(logs, votes, ids, term_b, last_b, term_a);
        lemma_agree_at(logs.logs[term_a], logs.logs[term_b], last_b + 1, index);
    }
}

/// Leader completeness: a leader that no node is ahead of in its term has in its log, or has replaced
/// by a snapshot, every entry that any node has ever applied.
pub proof fn law_leader_completeness(
    start: Cluster,
    events: Seq<Event>,
    leader: u64,
    application: Application,
)
    requires
        is_run(start, events),
        reached(start, events, events.len()).nodes.dom().contains(leader),
        reached(start, events, events.len()).nodes[leader].state == RaftState::Leader,
        forall|id: u64| #[trigger]
            reached(start, events, events.len()).nodes.dom().contains(id) ==> reached(
                start,
                events,
                events.len(),
            ).nodes[id].current_term <= reached(
                start,
                events,
                events.len(),
            ).nodes[leader].current_term,
        reached(start, events, events.len()).applied.contains(application),
    ensures
        ({
            let node = reached(start, events, events.len()).nodes[leader];
            &&& application.index <= node.last_index()
            &&& application.index > node.base ==> node.log[application.index
                - node.base].command == application.command
        }),
{
    reveal(cluster_ok);
    let cluster = reached(start, events, events.len());
    let votes = votes_at(start, events, events.len());
    let ids = cluster.nodes.dom();
    let logs = lemma_run(start, events, events.len());
    let node = cluster.nodes[leader];
    let index = application.index as int;
    assert(node_ok(node, leader, logs, votes, ids));
    assert(voter_ok(node, leader, votes, ids));
    assert(application_ok(application, logs, votes, ids));
    let (term, last) = choose|term: u64, last: int| #[trigger]
        logs.chosen(votes, ids, term, last) && 0 <= index <= last
            && logs.logs[term][index].command == application.command;
    assert(votes_term_ok(votes, term, ids));
    let earlier = votes.leader[term];
    assert(ids.contains(earlier));
    assert(voter_ok(cluster.nodes[earlier], earlier, votes, ids));
    assert(votes.has_led(term) && votes.leader[term] == earlier);
    lemma_leader_completeness(logs, votes, ids, term, last, node.current_term);
    lemma_agree_at(logs.logs[node.current_term], logs.logs[term], last + 1, index);
    if index > node.base {
        assert(logs.full[leader][index] == node.log[index - node.base]);
    }
}

} // verus!
