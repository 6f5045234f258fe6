//! Reads: a leader answers one only when its own state holds all that any node had applied by the
//! time the read was asked for.

use crate::agreement::{
    agree, lemma_agree_at, lemma_leader_completeness, lemma_term_log, logs_ok, Ack, Logs,
};
use crate::cluster::{
    after, enabled, is_run, outcome, reached, Application, Cluster, Event,
};
use crate::election::{
    lemma_quorums_meet, quorum, voter_ok, votes_at, votes_term_ok, Turn, Votes,
};
use crate::laws::law_reads_wait_for_their_barrier;
use crate::model::{CoreView, Step};
use crate::replication::{application_ok, cluster_ok, goes_on, lemma_run_since, node_ok};
use crate::types::{ActionView, RaftState};
use vstd::prelude::*;

verus! {

/// A step before the answers to reads are added to it.
pub open spec fn bare_step(node: CoreView, event: Event) -> Step {
    match event {
        Event::Tick { timeout, .. } => node.on_tick(timeout),
        Event::Propose { command, .. } => node.on_propose(command),
        Event::Read { .. } => Step {
            state: node.on_read_request(),
            actions: Seq::<ActionView>::empty(),
        },
        Event::Deliver { envelope, timeout } => node.on_message(envelope.message, timeout),
        _ => outcome(node, event),
    }
}

/// A node answers a read only while it leads and only when the entry of the read is committed.
pub(crate) proof fn lemma_answered(node: CoreView, event: Event, barrier: u64)
    requires
        outcome(node, event).actions.contains(ActionView::ReadBarrierReady { id: barrier }),
    ensures
        outcome(node, event).state.state == RaftState::Leader,
        barrier <= outcome(node, event).state.commit_index,
{
    let step = bare_step(node, event);
    assert(!(event is Compact) && !(event is Restart));
    assert(forall|i: int|
        0 <= i < step.actions.len() ==> !(#[trigger] step.actions[i] is ReadBarrierReady));
    law_reads_wait_for_their_barrier(step, barrier);
}

/// A leader commits an entry that was not there before only if no later leader had been elected by
/// then. So it has all that was applied at that time.
proof fn lemma_commit_covers(
    cluster: Cluster,
    logs: Logs,
    votes: Votes,
    later: Cluster,
    logs_later: Logs,
    votes_later: Votes,
    id: u64,
    application: Application,
)
    requires
        cluster_ok(cluster, logs, votes),
        cluster_ok(later, logs_later, votes_later),
        goes_on(cluster, logs, votes, later, logs_later, votes_later),
        cluster.nodes.dom().contains(id),
        cluster.nodes[id].state == RaftState::Leader,
        later.nodes[id].state == RaftState::Leader,
        later.nodes[id].current_term == cluster.nodes[id].current_term,
        later.nodes[id].commit_index > cluster.nodes[id].last_index(),
        cluster.applied.contains(application),
    ensures
        application.index <= later.nodes[id].last_applied,
{
    reveal(cluster_ok);
    reveal(goes_on);
    let ids = cluster.nodes.dom();
    let node = cluster.nodes[id];
    let node_later = later.nodes[id];
    let term = node.current_term;
    let log = logs.logs[term];
    let log_later = logs_later.logs[term];
    let index = node.last_index() + 1;
    let commit = node_later.commit_index as int;
    assert(node_ok(node, id, logs, votes, ids));
    assert(node_ok(node_later, id, logs_later, votes_later, ids));
    assert(voter_ok(node, id, votes, ids));
    assert(voter_ok(node_later, id, votes_later, ids));
    assert(votes.has_led(term) && votes_later.has_led(term));
    assert(log.len() == index);
    // what the leader has committed was chosen in its own term
    let (chosen, last) = choose|chosen: u64, last: int| #[trigger]
        logs_later.chosen(votes_later, ids, chosen, last) && chosen <= term && commit <= last
            && agree(log_later, logs_later.logs[chosen], commit + 1);
    lemma_term_log(logs, votes, ids, term);
    lemma_term_log(logs_later, votes_later, ids, term);
    lemma_term_log(logs_later, votes_later, ids, chosen);
    lemma_agree_at(log, log_later, index, index - 1);
    assert(log_later[index - 1].term <= log_later[index].term);
    lemma_agree_at(log_later, logs_later.logs[chosen], commit + 1, index);
    let log_chosen = logs_later.logs[chosen];
    assert(log_chosen[index].term <= log_chosen[log_chosen.len() - 1].term);
    assert(chosen == term);
    let nodes = choose|nodes: Set<u64>| #[trigger]
        quorum(nodes, ids) && logs_later.all_acked(votes_later, nodes, term, last);
    // what was applied was chosen in this term or before
    let (before, end) = choose|before: u64, end: int| #[trigger]
        logs.chosen(votes, ids, before, end) && 0 <= application.index <= end
            && logs.logs[before][application.index as int].command == application.command;
    assert(application_ok(application, logs, votes, ids));
    if before > term {
        assert(votes_term_ok(votes, before, ids));
        let voter = lemma_quorums_meet(nodes, votes.voters[before], ids);
        let leader = votes.leader[before];
        assert(votes.voted(voter, before, leader));
        assert(voter_ok(cluster.nodes[voter], voter, votes, ids));
        assert(cluster.nodes[voter].current_term >= before) by {
            if voter == leader {
                assert(votes.stood.contains(Turn { node: leader, term: before }));
            } else {
                assert(votes.choice.dom().contains(Turn { node: voter, term: before }));
            }
        }
        assert(logs_later.acked(votes_later, voter, term, last));
        let k = choose|k: int|
            last <= k && #[trigger] logs_later.acks.contains(Ack { node: voter, term, index: k });
        assert(logs.acks.contains(Ack { node: voter, term, index: k }));
        reveal(logs_ok);
        assert(k < log.len());
        assert(false);
    }
    lemma_leader_completeness(logs, votes, ids, before, end, term);
}

/// Whether a node answers, as part of what an event leads to, the read whose entry is at `barrier`.
#[verifier::opaque]
pub open spec fn answers(node: CoreView, event: Event, barrier: int) -> bool {
    exists|i: int|
        0 <= i < outcome(node, event).actions.len() && (#[trigger] outcome(node, event).actions[i])
            == (ActionView::ReadBarrierReady { id: barrier as u64 })
}

proof fn lemma_asked(start: Cluster, events: Seq<Event>, asked: nat, id: u64)
    requires
        is_run(start, events),
        asked < events.len(),
        events[asked as int] == (Event::Read { node: id }),
    ensures
        ({
            let cluster = reached(start, events, asked);
            &&& cluster.nodes.dom().contains(id)
            &&& cluster.nodes[id].state == RaftState::Leader
            &&& cluster.nodes[id].last_index() + 1 < u64::MAX
        }),
{
    assert(enabled(reached(start, events, asked), events[asked as int]));
}

proof fn lemma_answer_given(
    start: Cluster,
    events: Seq<Event>,
    answered: nat,
    id: u64,
    barrier: int,
)
    requires
        answered < events.len(),
        events[answered as int].node() == id,
        0 <= barrier <= u64::MAX,
        answers(reached(start, events, answered).nodes[id], events[answered as int], barrier),
    ensures
        ({
            let cluster = reached(start, events, answered + 1);
            &&& cluster.nodes[id].state == RaftState::Leader
            &&& barrier <= cluster.nodes[id].commit_index
        }),
{
    reveal(answers);
    let cluster = reached(start, events, answered);
    let event = events[answered as int];
    lemma_answered(cluster.nodes[id], event, barrier as u64);
    assert(reached(start, events, answered + 1) == after(cluster, event));
}

/// Reads are linearizable: a node that answers a read in the term in which it was asked for has
/// applied by then every entry that any node had applied when the read was asked for.
pub proof fn law_reads_see_what_was_applied(
    start: Cluster,
    events: Seq<Event>,
    asked: nat,
    answered: nat,
    id: u64,
    application: Application,
)
    requires
        is_run(start, events),
        asked < answered < events.len(),
        events[asked as int] == (Event::Read { node: id }),
        events[answered as int].node() == id,
        answers(
            reached(start, events, answered).nodes[id],
            events[answered as int],
            reached(start, events, asked).nodes[id].last_index() + 1,
        ),
        reached(start, events, answered + 1).nodes[id].current_term == reached(
            start,
            events,
            asked,
        ).nodes[id].current_term,
        reached(start, events, asked).applied.contains(application),
    ensures
        application.index <= reached(start, events, answered + 1).nodes[id].last_applied,
{
    let barrier = reached(start, events, asked).nodes[id].last_index() + 1;
    lemma_asked(start, events, asked, id);
    lemma_answer_given(start, events, answered, id, barrier);
    let (logs, logs_later) = lemma_run_since(start, events, asked, answered + 1);
    lemma_commit_covers(
        reached(start, events, asked),
        logs,
        votes_at(start, events, asked),
        reached(start, events, answered + 1),
        logs_later,
        votes_at(start, events, answered + 1),
        id,
        application,
    );
}

} // verus!
