//! What holds of a single node, and of the event loop around it, from one event to the next.

use crate::cluster::{can_happen, may_draw, outcome, Event};
use crate::driver::{DriverView, EffectView};
use crate::model::{holders, CoreView, ReadBarrier, Step};
use crate::raft::{lemma_first_missing, lemma_merged_ignores_clock};
use crate::replication::{lemma_majority_exists, lemma_newest_of_term};
use crate::types::{
    changes_storage, is_persistence, ActionView, AppendEntriesResponseRPC, AppendEntriesView,
    EntryView, MessageView, RaftState, RequestVoteRPC, RequestVoteResponseRPC,
};
use vstd::prelude::*;

verus! {

/// Every event leaves a node in order that was in order before it.
pub proof fn law_nodes_stay_in_order(node: CoreView, event: Event)
    requires
        node.wf(),
        can_happen(node, event),
    ensures
        outcome(node, event).state.wf(),
{
    match event {
        Event::Deliver { envelope, timeout } => match envelope.message {
            MessageView::RequestVoteResponse(resp) => {
                let joined = node.joined_term(resp.term, timeout);
                let counted = CoreView {
                    votes_received: joined.votes_received.insert(resp.id),
                    ..joined
                };
                let leading = counted.leading(timeout);
                assert(leading.next_index.dom() =~= node.next_index.dom().union(
                    node.peers.to_set(),
                ));
                assert(leading.match_index.dom() =~= node.match_index.dom().union(
                    node.peers.to_set(),
                ));
            },
            MessageView::AppendEntries(req) => {
                let facing = node.facing_leader(req.term, timeout);
                let following = facing.following(req.leader_id, timeout);
                if facing.follows(req.term) && following.agrees_at(
                    req.prev_log_index,
                    req.prev_log_term,
                ) {
                    let unmoved = node.facing_leader(req.term, node.election_timeout);
                    lemma_merged_ignores_clock(
                        unmoved,
                        following,
                        req.prev_log_index,
                        req.entries,
                    );
                    lemma_first_missing(following, req.prev_log_index, req.entries, 0);
                }
            },
            MessageView::AppendEntriesResponse(resp) => {
                let joined = node.joined_term(resp.term, timeout);
                let progressed = joined.progressed(resp.id, resp.match_index);
                lemma_newest_of_term(
                    progressed,
                    progressed.commit_index,
                    progressed.replicated_index(),
                );
            },
            _ => {},
        },
        _ => {},
    }
}

/// The term of a node never falls, not even over a restart.
pub proof fn law_terms_never_fall(node: CoreView, event: Event)
    requires
        node.wf(),
        can_happen(node, event),
    ensures
        node.current_term <= outcome(node, event).state.current_term,
{
}

/// A vote is kept for the rest of the term, over restarts too. The one exception is a candidate
/// that gives way to the leader of its term and forgets that it has voted for itself.
pub proof fn law_votes_are_kept(node: CoreView, event: Event)
    requires
        node.wf(),
        can_happen(node, event),
        node.voted_for is Some,
        outcome(node, event).state.current_term == node.current_term,
    ensures
        outcome(node, event).state.voted_for == node.voted_for || (node.state
            == RaftState::Candidate && outcome(node, event).state.voted_for is None
            && outcome(node, event).state.state == RaftState::Follower),
{
}

/// Whether an action tells a candidate that it has a vote.
pub open spec fn grants_a_vote(action: ActionView) -> bool {
    &&& action matches ActionView::SendMessage { message, .. }
    &&& message matches MessageView::RequestVoteResponse(resp)
    &&& resp.vote_granted
}

/// A vote goes only to a candidate whose log is at least as complete as that of the voter, in the
/// candidate's term, and is on record when the answer leaves.
pub proof fn law_votes_go_to_complete_logs(
    node: CoreView,
    req: RequestVoteRPC,
    timeout: u64,
)
    requires
        node.wf(),
    ensures
        ({
            let step = node.on_request_vote(req, timeout);
            grants_a_vote(step.actions[0]) ==> {
                &&& node.up_to_date(req.last_log_term, req.last_log_index)
                &&& step.state.voted_for == Some(req.candidate_id)
                &&& step.state.current_term == req.term
            }
        }),
{
}

/// A vote is handed out for stable storage, with its term, before the answer that carries it.
pub proof fn law_votes_are_stored_first(node: CoreView, req: RequestVoteRPC, timeout: u64)
    requires
        node.wf(),
        node.joined_term(req.term, timeout).grants(req),
    ensures
        ({
            let step = node.on_request_vote(req, timeout).persisted();
            let last = step.actions.len() - 1;
            &&& last >= 1
            &&& step.actions[0] == (ActionView::PersistMetadata {
                term: step.state.current_term,
                voted_for: Some(req.candidate_id),
            })
            &&& grants_a_vote(step.actions[last])
            &&& forall|i: int| 0 <= i < last ==> is_persistence(#[trigger] step.actions[i])
        }),
{
    let raw = node.on_request_vote(req, timeout);
    let first = raw.state.persistence();
    assert(raw.persisted().actions =~= first + raw.actions);
    assert forall|i: int| 0 <= i < first.len() implies is_persistence(
        #[trigger] raw.persisted().actions[i],
    ) by {
        assert(raw.persisted().actions[i] == first[i]);
    }
}

/// Answers that have outlived their term, or reach a node that does not lead, change nothing.
pub proof fn law_late_answers_change_nothing(
    node: CoreView,
    vote: RequestVoteResponseRPC,
    resp: AppendEntriesResponseRPC,
    timeout: u64,
)
    ensures
        vote.term < node.current_term ==> node.on_request_vote_response(vote, timeout) == (Step {
            state: node,
            actions: Seq::<ActionView>::empty(),
        }),
        resp.term < node.current_term || (resp.term == node.current_term && node.state
            != RaftState::Leader) ==> node.on_append_entries_response(resp, timeout) == (Step {
            state: node,
            actions: Seq::<ActionView>::empty(),
        }),
{
}

/// What a node has committed it does not take back as long as it does not restart. After a restart
/// it starts again from its snapshot.
pub proof fn law_commit_index_never_falls(node: CoreView, event: Event)
    requires
        node.wf(),
        can_happen(node, event),
        !(event is Restart),
    ensures
        node.commit_index <= outcome(node, event).state.commit_index,
{
    law_nodes_stay_in_order(node, event);
    match event {
        Event::Deliver { envelope, timeout } => match envelope.message {
            MessageView::AppendEntries(req) => {
                let facing = node.facing_leader(req.term, timeout);
                let following = facing.following(req.leader_id, timeout);
                let unmoved = node.facing_leader(req.term, node.election_timeout);
                lemma_merged_ignores_clock(unmoved, following, req.prev_log_index, req.entries);
            },
            MessageView::AppendEntriesResponse(resp) => {
                let joined = node.joined_term(resp.term, timeout);
                let progressed = joined.progressed(resp.id, resp.match_index);
                lemma_newest_of_term(
                    progressed,
                    progressed.commit_index,
                    progressed.replicated_index(),
                );
            },
            _ => {},
        },
        _ => {},
    }
}

/// A leader commits only what more than half of the servers hold, and only up to an entry of its
/// own term.
pub proof fn law_leader_commits_what_a_majority_holds(node: CoreView)
    requires
        node.wf(),
        node.replicated_index() > node.commit_index ==> node.replicated_index()
            <= node.last_index(),
    ensures
        ({
            let commit = node.committed().state.commit_index;
            commit > node.commit_index ==> {
                &&& node.term_at(commit as int) == node.current_term
                &&& 2 * holders(node.match_index, node.last_index() as u64, commit)
                    > node.match_index.dom().len() + 1
            }
        }),
{
    let own = node.last_index() as u64;
    let high = node.replicated_index();
    let commit = node.committed().state.commit_index;
    lemma_newest_of_term(node, node.commit_index, high);
    lemma_majority_exists(node.match_index, own, u64::MAX);
    let dom = node.match_index.dom();
    let few = dom.filter(|peer: u64| node.match_index[peer] >= high);
    let many = dom.filter(|peer: u64| node.match_index[peer] >= commit);
    if commit > node.commit_index {
        assert(few.subset_of(many));
        vstd::set_lib::lemma_len_subset(few, many);
    }
}

/// A leader never drops or changes an entry of its log while it leads: it only adds to it.
pub proof fn law_leaders_only_append(node: CoreView, event: Event)
    requires
        node.wf(),
        can_happen(node, event),
        node.state == RaftState::Leader,
        outcome(node, event).state.state == RaftState::Leader,
        !(event is Compact),
    ensures
        outcome(node, event).state.base == node.base,
        node.log.is_prefix_of(outcome(node, event).state.log),
{
    let next = outcome(node, event).state;
    match event {
        Event::Deliver { envelope, timeout } => match envelope.message {
            MessageView::AppendEntries(req) => {
                assert(!node.facing_leader(req.term, timeout).follows(req.term)
                    || next.state == RaftState::Follower);
            },
            _ => {},
        },
        _ => {},
    }
    assert(next.log == node.log || next.log.drop_last() =~= node.log);
}

/// Whether an action applies an entry.
pub open spec fn is_application(action: ActionView) -> bool {
    action is ApplyToStateMachine
}

/// Whether actions apply exactly the entries of a log after `from` up to `to`, each one once and in
/// order.
pub open spec fn applies_in_order(
    actions: Seq<ActionView>,
    node: CoreView,
    from: u64,
    to: u64,
) -> bool {
    &&& forall|i: int|
        #![trigger actions[i]]
        0 <= i < actions.len() ==> (actions[i] matches ActionView::ApplyToStateMachine {
            index,
            command,
        } ==> from < index <= to && command == node.log[index - node.base].command)
    &&& forall|i: int, j: int|
        #![trigger actions[i], actions[j]]
        0 <= i < j < actions.len() ==> (actions[i] matches ActionView::ApplyToStateMachine {
            index: first,
            ..
        } ==> (actions[j] matches ActionView::ApplyToStateMachine { index: second, .. } ==> first
            < second))
    &&& forall|index: u64|
        from < index <= to ==> exists|i: int|
            0 <= i < actions.len() && #[trigger] actions[i] == #[trigger] application_of(
                node,
                index,
            )
}

/// The action that applies the entry at `index`.
pub open spec fn application_of(node: CoreView, index: u64) -> ActionView {
    ActionView::ApplyToStateMachine { index, command: node.log[index - node.base].command }
}

proof fn lemma_applies_in_order(
    step: Step,
    node: CoreView,
    from: u64,
    to: u64,
    rest: Seq<ActionView>,
)
    requires
        step.actions == node.applications(from, to) + rest,
        forall|i: int| 0 <= i < rest.len() ==> !is_application(#[trigger] rest[i]),
        node.log == step.state.log,
        node.base == step.state.base,
        node.base <= from <= to,
    ensures
        applies_in_order(step.settled().actions, step.settled().state, from, to),
{
    let first = step.state.persistence();
    let middle = node.applications(from, to);
    let last = step.state.saved().read_answers();
    let all = step.settled().actions;
    let start = first.len() as int;
    assert(all =~= first + middle + rest + last);
    assert forall|i: int| 0 <= i < all.len() && is_application(#[trigger] all[i]) implies start <= i
        < start + middle.len() && all[i] == middle[i - start] by {
        if i < start {
            assert(all[i] == first[i]);
        } else if i >= start + middle.len() {
            let j = i - start - middle.len();
            if j < rest.len() {
                assert(all[i] == rest[j]);
            } else {
                assert(all[i] == last[j - rest.len()]);
            }
        }
    }
    assert forall|i: int, j: int|
        #![trigger all[i], all[j]]
        0 <= i < j < all.len() && is_application(all[i]) && is_application(all[j]) implies (all[i]
        matches ActionView::ApplyToStateMachine { index: a, .. } ==> (all[j]
        matches ActionView::ApplyToStateMachine { index: b, .. } ==> a < b)) by {
        assert(all[i] == middle[i - start]);
        assert(all[j] == middle[j - start]);
    }
    assert forall|index: u64| from < index <= to implies exists|i: int|
        0 <= i < all.len() && #[trigger] all[i] == #[trigger] application_of(
            step.settled().state,
            index,
        ) by {
        let i = start + index - from - 1;
        assert(all[i] == middle[i - start]);
    }
}

proof fn lemma_applies_nothing(step: Step, at: u64)
    requires
        forall|i: int| 0 <= i < step.actions.len() ==> !is_application(#[trigger] step.actions[i]),
        step.state.base <= at,
    ensures
        applies_in_order(step.settled().actions, step.settled().state, at, at),
{
    assert(step.actions =~= step.state.applications(at, at) + step.actions);
    lemma_applies_in_order(step, step.state, at, at, step.actions);
}

/// What a follower applies when it hears from a leader.
proof fn lemma_entries_applied(node: CoreView, event: Event)
    requires
        node.wf(),
        can_happen(node, event),
        event matches Event::Deliver { envelope, .. } && envelope.message is AppendEntries,
    ensures
        applies_in_order(
            outcome(node, event).actions,
            outcome(node, event).state,
            node.last_applied,
            outcome(node, event).state.last_applied,
        ),
{
    let timeout = event->Deliver_timeout;
    let req = event->envelope.message->AppendEntries_0;
    let raw = node.on_append_entries(req, timeout);
    let facing = node.facing_leader(req.term, timeout);
    let following = facing.following(req.leader_id, timeout);
    law_nodes_stay_in_order(node, event);
    law_commit_index_never_falls(node, event);
    if facing.follows(req.term) && following.agrees_at(req.prev_log_index, req.prev_log_term) {
        let merged = following.merged(req.prev_log_index, req.entries);
        let commit = merged.commit_told(req.leader_commit);
        let held = (req.prev_log_index + req.entries.len()) as u64;
        let rest = seq![merged.append_answer(req.leader_id, true, held)];
        assert(raw.actions =~= merged.applications(node.last_applied, commit) + rest);
        lemma_applies_in_order(raw, merged, node.last_applied, commit, rest);
    } else {
        lemma_applies_nothing(raw, node.last_applied);
    }
}

/// What a leader applies when it hears from a follower.
proof fn lemma_answer_applied(node: CoreView, event: Event)
    requires
        node.wf(),
        can_happen(node, event),
        event matches Event::Deliver { envelope, .. } && envelope.message is AppendEntriesResponse,
    ensures
        applies_in_order(
            outcome(node, event).actions,
            outcome(node, event).state,
            node.last_applied,
            outcome(node, event).state.last_applied,
        ),
{
    let timeout = event->Deliver_timeout;
    let resp = event->envelope.message->AppendEntriesResponse_0;
    let raw = node.on_append_entries_response(resp, timeout);
    law_nodes_stay_in_order(node, event);
    law_commit_index_never_falls(node, event);
    if resp.success {
        let joined = node.joined_term(resp.term, timeout);
        let progressed = joined.progressed(resp.id, resp.match_index);
        let commit = raw.state.commit_index;
        let rest = Seq::<ActionView>::empty();
        assert(raw.actions =~= progressed.applications(node.last_applied, commit) + rest);
        lemma_applies_in_order(raw, progressed, node.last_applied, commit, rest);
    } else {
        lemma_applies_nothing(raw, node.last_applied);
    }
}

/// Entries are applied in order, each one once, and those are exactly the ones between what was
/// applied before the event and what is applied after it. A snapshot that is installed takes the
/// place of all that it covers.
pub proof fn law_entries_are_applied_in_order(node: CoreView, event: Event)
    requires
        node.wf(),
        can_happen(node, event),
        !(event is Restart),
    ensures
        ({
            let step = outcome(node, event);
            let next = step.state;
            if next.base > node.base && !(event is Compact) {
                applies_in_order(step.actions, next, next.base, next.base)
            } else {
                applies_in_order(step.actions, next, node.last_applied, next.last_applied)
            }
        }),
{
    let applied = node.last_applied;
    match event {
        Event::Tick { timeout, .. } => {
            lemma_applies_nothing(node.on_tick(timeout), applied);
        },
        Event::Propose { command, .. } => {
            lemma_applies_nothing(node.on_propose(command), applied);
        },
        Event::Read { .. } => {
            lemma_applies_nothing(
                Step { state: node.on_read_request(), actions: Seq::<ActionView>::empty() },
                applied,
            );
        },
        Event::Deliver { envelope, timeout } => {
            let raw = node.on_message(envelope.message, timeout);
            match envelope.message {
                MessageView::AppendEntries(_) => {
                    lemma_entries_applied(node, event);
                },
                MessageView::AppendEntriesResponse(_) => {
                    lemma_answer_applied(node, event);
                },
                MessageView::InstallSnapshot(_) => {
                    let at = if raw.state.base > node.base {
                        raw.state.base
                    } else {
                        applied
                    };
                    lemma_applies_nothing(raw, at);
                },
                MessageView::RequestVote(_) => {
                    lemma_applies_nothing(raw, applied);
                },
                MessageView::RequestVoteResponse(_) => {
                    lemma_applies_nothing(raw, applied);
                },
                MessageView::InstallSnapshotResponse(_) => {
                    lemma_applies_nothing(raw, applied);
                },
            }
        },
        _ => {},
    }
}

/// Whether everything that changes stable storage comes before everything else.
pub open spec fn stores_first(actions: Seq<ActionView>) -> bool {
    forall|i: int, j: int|
        0 <= i < j < actions.len() && changes_storage(#[trigger] actions[j]) ==> changes_storage(
            #[trigger] actions[i],
        )
}

proof fn lemma_stores_first(step: Step)
    requires
        stores_first(step.actions),
    ensures
        stores_first(step.settled().actions),
{
    let first = step.state.persistence();
    let last = step.state.saved().read_answers();
    let all = step.settled().actions;
    assert(all =~= first + step.actions + last);
    assert forall|i: int, j: int|
        0 <= i < j < all.len() && changes_storage(#[trigger] all[j]) implies changes_storage(
        #[trigger] all[i],
    ) by {
        let k = first.len() as int;
        if j >= k + step.actions.len() {
            assert(all[j] == last[j - k - step.actions.len()]);
        } else if i < k {
            assert(all[i] == first[i]);
        } else {
            assert(all[i] == step.actions[i - k]);
            assert(all[j] == step.actions[j - k]);
        }
    }
}

/// What has to be on stable storage is written before any message leaves and before any entry is
/// applied.
pub proof fn law_storage_comes_first(node: CoreView, event: Event)
    requires
        node.wf(),
        can_happen(node, event),
    ensures
        stores_first(outcome(node, event).actions),
{
    match event {
        Event::Tick { timeout, .. } => {
            lemma_stores_first(node.on_tick(timeout));
        },
        Event::Propose { command, .. } => {
            lemma_stores_first(node.on_propose(command));
        },
        Event::Read { .. } => {
            lemma_stores_first(
                Step { state: node.on_read_request(), actions: Seq::<ActionView>::empty() },
            );
        },
        Event::Deliver { envelope, timeout } => {
            lemma_stores_first(node.on_message(envelope.message, timeout));
        },
        _ => {},
    }
}

/// The node after `n` ticks without any message.
pub open spec fn after_ticks(node: CoreView, n: nat, timeout: u64) -> CoreView
    decreases n,
{
    if n == 0 {
        node
    } else {
        after_ticks(node, (n - 1) as nat, timeout).on_tick(timeout).persisted().state
    }
}

/// The tick at which something is due that a clock counts up to: the first one at the latest where
/// it counts to nothing.
pub open spec fn due_at(count: u64) -> u64 {
    if count == 0 {
        1
    } else {
        count
    }
}

/// What a tick with nothing due does after `n` others: it moves the clock. Only the first one may
/// find something that is still to be written to stable storage.
pub open spec fn idle_tick(node: CoreView, n: nat) -> Step {
    Step {
        state: CoreView { ticks: (n + 1) as u64, ..node.saved() },
        actions: if n == 0 {
            node.persistence()
        } else {
            Seq::<ActionView>::empty()
        },
    }
}

/// The candidate that a node becomes at its timeout: in the next term, with its own vote and no
/// other, and with the log and the commit index that it had.
pub open spec fn standing(node: CoreView, timeout: u64) -> CoreView {
    CoreView {
        state: RaftState::Candidate,
        current_term: (node.current_term + 1) as u64,
        voted_for: Some(node.id),
        votes_received: set![node.id],
        leader_id: None,
        ticks: 0,
        election_timeout: timeout,
        ..node.saved()
    }
}

/// A node that has just heard from its leader, and now hears nothing, does nothing before its
/// timeout has passed, and stands for election when it has: it hands out its new term and its vote
/// for stable storage and then asks every peer for a vote.
pub proof fn law_elections_wait_for_the_timeout(node: CoreView, n: nat, timeout: u64)
    requires
        node.wf(),
        node.state != RaftState::Leader,
        node.ticks == 0,
        n < due_at(node.election_timeout),
        node.current_term < u64::MAX,
    ensures
        after_ticks(node, n, timeout).can_tick(),
        ({
            let step = after_ticks(node, n, timeout).on_tick(timeout).persisted();
            let candidate = standing(node, timeout);
            if n + 1 < due_at(node.election_timeout) {
                step == idle_tick(node, n)
            } else {
                &&& step.state == candidate
                &&& n > 0 || node.is_saved() ==> step.actions == seq![
                    ActionView::PersistMetadata {
                        term: candidate.current_term,
                        voted_for: Some(node.id),
                    },
                ] + vote_requests(candidate)
                &&& n == 0 ==> step.actions == (CoreView {
                    unsaved_metadata: true,
                    unsaved_from: node.unsaved_from,
                    ..candidate
                }).persistence() + vote_requests(candidate)
            }
        }),
    decreases n,
{
    if n > 0 {
        law_elections_wait_for_the_timeout(node, (n - 1) as nat, timeout);
    }
    let before = after_ticks(node, n, timeout);
    let step = before.on_tick(timeout);
    if n + 1 < due_at(node.election_timeout) {
        assert(step.persisted().actions =~= idle_tick(node, n).actions);
    } else {
        assert(step.actions =~= vote_requests(standing(node, timeout)));
    }
}

/// One vote request for each peer, in the order of the peers.
pub open spec fn vote_requests(candidate: CoreView) -> Seq<ActionView> {
    Seq::new(
        candidate.peers.len(),
        |i: int|
            ActionView::SendMessage {
                target: candidate.peers[i],
                message: MessageView::RequestVote(
                    RequestVoteRPC {
                        term: candidate.current_term,
                        candidate_id: candidate.id,
                        last_log_index: candidate.last_index() as u64,
                        last_log_term: candidate.log.last().term,
                    },
                ),
            },
    )
}

/// The message with no entries that a leader sends to a peer that has the whole log.
pub open spec fn bare_heartbeat(leader: CoreView, peer: u64) -> ActionView {
    ActionView::SendMessage {
        target: peer,
        message: MessageView::AppendEntries(
            AppendEntriesView {
                term: leader.current_term,
                leader_id: leader.id,
                prev_log_index: leader.last_index() as u64,
                prev_log_term: leader.log.last().term,
                entries: Seq::<EntryView>::empty(),
                leader_commit: leader.commit_index,
            },
        ),
    }
}

/// A leader that has just sent its heartbeat, and hears nothing, sends nothing for the rest of the
/// interval, and sends one message to each peer at its end. To a peer that it takes to have the
/// whole log the message holds no entries. Nothing but the clock changes.
pub proof fn law_heartbeats_keep_the_interval(node: CoreView, n: nat, timeout: u64)
    requires
        node.wf(),
        node.state == RaftState::Leader,
        node.ticks == 0,
        n < due_at(node.heartbeat_interval),
        node.tracks_peers(),
    ensures
        after_ticks(node, n, timeout).can_tick(),
        ({
            let step = after_ticks(node, n, timeout).on_tick(timeout).persisted();
            if n + 1 < due_at(node.heartbeat_interval) {
                step == idle_tick(node, n)
            } else {
                &&& step.state == (CoreView { ticks: 0, ..node.saved() })
                &&& step.actions == idle_tick(node, n).actions + node.broadcast()
                &&& node.broadcast().len() == node.peers.len()
                &&& forall|i: int|
                    0 <= i < node.peers.len() && node.next_for(#[trigger] node.peers[i])
                        == node.last_index() + 1 ==> node.broadcast()[i] == bare_heartbeat(
                        node,
                        node.peers[i],
                    )
            }
        }),
    decreases n,
{
    if n > 0 {
        law_heartbeats_keep_the_interval(node, (n - 1) as nat, timeout);
    }
    let before = after_ticks(node, n, timeout);
    let step = before.on_tick(timeout);
    assert forall|i: int| 0 <= i < node.peers.len() implies before.tracks(
        #[trigger] before.peers[i],
    ) by {
        assert(node.tracks(node.peers[i]));
    }
    if n + 1 < due_at(node.heartbeat_interval) {
        assert(step.persisted().actions =~= idle_tick(node, n).actions);
    } else {
        assert(step.actions =~= node.broadcast());
        assert(step.persisted().actions =~= idle_tick(node, n).actions + node.broadcast());
        assert forall|i: int|
            0 <= i < node.peers.len() && node.next_for(#[trigger] node.peers[i])
                == node.last_index() + 1 implies node.broadcast()[i] == bare_heartbeat(
            node,
            node.peers[i],
        ) by {
            assert(node.log.skip(node.log.len() as int) =~= Seq::<EntryView>::empty());
        }
    }
}

/// The answer of a follower to a leader, the last of its actions.
pub open spec fn answers(step: Step, success: bool) -> bool {
    &&& step.actions.len() > 0
    &&& step.actions.last() matches ActionView::SendMessage { message, .. }
    &&& message matches MessageView::AppendEntriesResponse(resp)
    &&& resp.success == success
}

/// Entries that a node rejects change neither its log nor what it has committed.
pub proof fn law_rejected_entries_change_nothing(
    node: CoreView,
    req: AppendEntriesView,
    timeout: u64,
)
    requires
        answers(node.on_append_entries(req, timeout), false),
    ensures
        node.on_append_entries(req, timeout).state.log == node.log,
        node.on_append_entries(req, timeout).state.base == node.base,
        node.on_append_entries(req, timeout).state.commit_index == node.commit_index,
        node.on_append_entries(req, timeout).actions.len() == 1,
{
}

proof fn lemma_held_before_missing(
    node: CoreView,
    prev: u64,
    entries: Seq<EntryView>,
    from: nat,
    i: int,
)
    requires
        from <= i < node.first_missing(prev, entries, from),
    ensures
        i < entries.len(),
        node.holds(prev + 1 + i, entries[i]),
    decreases entries.len() - from,
{
    if from < i {
        lemma_held_before_missing(node, prev, entries, from + 1, i);
    }
}

/// After a node has accepted entries it has an entry of the same term at the place of each, and
/// the very entry from the first one on that it did not have. All before them is as it was, and so
/// is all that a snapshot covers.
pub proof fn law_accepted_entries_are_held(node: CoreView, req: AppendEntriesView, timeout: u64)
    requires
        node.wf(),
        node.can_append_entries(req),
        node.timeout_start <= timeout < node.timeout_end,
        answers(node.on_append_entries(req, timeout), true),
    ensures
        ({
            let next = node.on_append_entries(req, timeout).state;
            let prev = req.prev_log_index as int;
            &&& next.base == node.base
            &&& forall|i: int|
                0 <= i < req.entries.len() && prev + 1 + i > node.base ==> prev + 1 + i
                    <= next.last_index() && next.term_at(prev + 1 + i) == (#[trigger] req.entries[
                i]).term
            &&& forall|i: int|
                0 <= i < node.log.len() && node.base + i <= prev ==> next.log[i]
                    == #[trigger] node.log[i]
            &&& next.log == node.log || next.last_index() == prev + req.entries.len()
                && next.log.last() == req.entries.last()
        }),
{
    let next = node.on_append_entries(req, timeout).state;
    let facing = node.facing_leader(req.term, timeout);
    let following = facing.following(req.leader_id, timeout);
    let prev = req.prev_log_index;
    let entries = req.entries;
    assert(facing.follows(req.term));
    assert(following.agrees_at(prev, req.prev_log_term));
    lemma_first_missing(following, prev, entries, 0);
    let k = following.first_missing(prev, entries, 0);
    assert forall|i: int|
        0 <= i < entries.len() && prev + 1 + i > node.base implies prev + 1 + i
        <= next.last_index() && next.term_at(prev + 1 + i) == (#[trigger] entries[i]).term by {
        if i < k {
            lemma_held_before_missing(following, prev, entries, 0, i);
        }
    }
}

/// A request that comes again, after it was accepted, leaves the node as it is but for the election
/// clock, and is answered alike: nothing is applied, and the answer is all that there is to do. It
/// makes no difference whether what stable storage needs was handed out in between.
pub proof fn law_repeated_entries_change_nothing(
    node: CoreView,
    req: AppendEntriesView,
    first_timeout: u64,
    second_timeout: u64,
)
    requires
        node.wf(),
        node.can_append_entries(req),
        may_draw(node, first_timeout),
        answers(node.on_append_entries(req, first_timeout), true),
    ensures
        ({
            let first = node.on_append_entries(req, first_timeout);
            let next = first.state;
            let again = Seq::<ActionView>::empty().push(first.actions.last());
            &&& next.can_append_entries(req)
            &&& next.on_append_entries(req, second_timeout) == (Step {
                state: next.clock_restarted(second_timeout),
                actions: again,
            })
            &&& next.saved().can_append_entries(req)
            &&& next.saved().on_append_entries(req, second_timeout) == (Step {
                state: next.saved().clock_restarted(second_timeout),
                actions: again,
            })
        }),
{
    let following = node.facing_leader(req.term, first_timeout).following(
        req.leader_id,
        first_timeout,
    );
    let next = node.on_append_entries(req, first_timeout).state;
    let prev = req.prev_log_index;
    let entries = req.entries;
    lemma_first_missing(following, prev, entries, 0);
    lemma_merged_ignores_clock(
        node.facing_leader(req.term, node.election_timeout),
        following,
        prev,
        entries,
    );
    law_accepted_entries_are_held(node, req, first_timeout);
    lemma_repeated(next, req, second_timeout);
    lemma_repeated(next.saved(), req, second_timeout);
}

/// A node that holds the entries of a request, and has committed what it can, only answers it.
proof fn lemma_repeated(node: CoreView, req: AppendEntriesView, timeout: u64)
    requires
        node.wf(),
        node.state == RaftState::Follower,
        node.current_term == req.term,
        node.leader_id == Some(req.leader_id),
        node.agrees_at(req.prev_log_index, req.prev_log_term),
        req.prev_log_index + 1 + req.entries.len() <= u64::MAX,
        forall|i: int|
            0 <= i < req.entries.len() ==> node.holds(
                req.prev_log_index + 1 + i,
                #[trigger] req.entries[i],
            ),
        req.leader_commit > node.commit_index ==> node.commit_index == node.last_index(),
    ensures
        node.can_append_entries(req),
        node.on_append_entries(req, timeout) == (Step {
            state: node.clock_restarted(timeout),
            actions: Seq::<ActionView>::empty().push(
                node.append_answer(
                    req.leader_id,
                    true,
                    (req.prev_log_index + req.entries.len()) as u64,
                ),
            ),
        }),
{
    let following = node.following(req.leader_id, timeout);
    lemma_nothing_missing(node, req.prev_log_index, req.entries, 0);
    lemma_nothing_missing(following, req.prev_log_index, req.entries, 0);
    assert(following.applications(node.commit_index, node.commit_index)
        =~= Seq::<ActionView>::empty());
}

proof fn lemma_nothing_missing(node: CoreView, prev: u64, entries: Seq<EntryView>, from: nat)
    requires
        from <= entries.len(),
        forall|i: int|
            0 <= i < entries.len() ==> node.holds(prev + 1 + i, #[trigger] entries[i]),
    ensures
        node.first_missing(prev, entries, from) == entries.len(),
    decreases entries.len() - from,
{
    if from < entries.len() {
        lemma_nothing_missing(node, prev, entries, from + 1);
    }
}

/// A follower that takes over entries reports the last index that the message spoke of, and holds
/// the log up to there.
pub proof fn law_followers_report_what_was_sent(
    node: CoreView,
    req: AppendEntriesView,
    timeout: u64,
)
    requires
        node.wf(),
        node.can_append_entries(req),
        node.timeout_start <= timeout < node.timeout_end,
        node.facing_leader(req.term, timeout).follows(req.term),
        node.agrees_at(req.prev_log_index, req.prev_log_term),
    ensures
        ({
            let step = node.on_append_entries(req, timeout);
            let held = req.prev_log_index + req.entries.len();
            &&& held <= step.state.last_index()
            &&& step.actions.last() == step.state.append_answer(req.leader_id, true, held as u64)
        }),
{
    let following = node.facing_leader(req.term, timeout).following(req.leader_id, timeout);
    lemma_first_missing(following, req.prev_log_index, req.entries, 0);
}

/// A leader whose follower does not agree goes back by one entry.
pub proof fn law_leaders_step_back_by_one(
    node: CoreView,
    resp: AppendEntriesResponseRPC,
    timeout: u64,
)
    requires
        node.wf(),
        node.can_append_entries_response(resp),
        node.state == RaftState::Leader,
        resp.term == node.current_term,
        !resp.success,
        node.next_index.dom().contains(resp.id),
        node.base < node.next_index[resp.id] - 1,
    ensures
        node.on_append_entries_response(resp, timeout).actions.len() == 1,
        ({
            let next = node.next_index[resp.id];
            &&& node.on_append_entries_response(
                resp,
                timeout,
            ).actions[0] matches ActionView::SendMessage { target, message }
            &&& target == resp.id
            &&& message matches MessageView::AppendEntries(req)
            &&& req.prev_log_index == next - 2
            &&& req.entries == node.log.skip(next - 1 - node.base)
        }),
{
}

/// A read goes ahead only while the node leads, and only when the entry that was added for it in
/// this very term is committed. It does so once.
pub proof fn law_reads_wait_for_their_barrier(step: Step, id: u64)
    requires
        forall|i: int|
            0 <= i < step.actions.len() ==> !(#[trigger] step.actions[i] is ReadBarrierReady),
        step.settled().actions.contains(ActionView::ReadBarrierReady { id }),
    ensures
        step.state.state == RaftState::Leader,
        id <= step.state.commit_index,
        step.state.read_barriers.contains(ReadBarrier { index: id, term: step.state.current_term }),
        forall|barrier: ReadBarrier| #[trigger]
            step.settled().state.read_barriers.contains(barrier) ==> barrier.index
                > step.state.commit_index,
{
    let first = step.state.persistence();
    let saved = step.state.saved();
    let last = saved.read_answers();
    let all = step.settled().actions;
    assert(all =~= first + step.actions + last);
    let i = choose|i: int| 0 <= i < all.len() && all[i] == (ActionView::ReadBarrierReady { id });
    let j = i - first.len() - step.actions.len();
    if i < first.len() {
        assert(all[i] == first[i]);
    } else if i < first.len() + step.actions.len() {
        assert(all[i] == step.actions[i - first.len()]);
    } else {
        assert(all[i] == last[j]);
        saved.read_barriers.lemma_filter_pred(saved.is_ready(), j);
        lemma_filtered(saved.read_barriers, saved.is_ready(), j);
    }
    assert forall|barrier: ReadBarrier| #[trigger]
        step.settled().state.read_barriers.contains(barrier) implies barrier.index
        > step.state.commit_index by {
        let waiting = saved.waiting_reads();
        let k = choose|k: int| 0 <= k < waiting.len() && waiting[k] == barrier;
        saved.read_barriers.lemma_filter_pred(saved.is_waiting(), k);
    }
}

proof fn lemma_filtered(all: Seq<ReadBarrier>, keep: spec_fn(ReadBarrier) -> bool, i: int)
    requires
        0 <= i < all.filter(keep).len(),
    ensures
        all.contains(all.filter(keep)[i]),
    decreases all.len(),
{
    reveal(Seq::filter);
    let front = all.drop_last();
    if i < front.filter(keep).len() {
        lemma_filtered(front, keep, i);
        let j = choose|j: int| 0 <= j < front.len() && front[j] == front.filter(keep)[i];
        assert(all[j] == all.filter(keep)[i]);
    } else {
        assert(all[all.len() - 1] == all.filter(keep)[i]);
    }
}

// -------------------------------------------------------------------------------- the event loop

/// The application is not told of the entries that leaders add for their own purposes.
pub proof fn law_no_ops_are_not_delivered(driver: DriverView, index: u64, i: int)
    requires
        0 <= i < driver.on_apply(index, Seq::empty()).1.len(),
    ensures
        driver.on_apply(index, Seq::empty()).1[i] is Reply,
{
}

/// The application gets every other command, once and as it was proposed.
pub proof fn law_commands_are_delivered_once(driver: DriverView, index: u64, command: Seq<u8>)
    requires
        command.len() > 0,
    ensures
        exists|i: int|
            {
                &&& 0 <= i < driver.on_apply(index, command).1.len()
                &&& #[trigger] driver.on_apply(index, command).1[i] == EffectView::DeliverCommand(
                    command,
                )
                &&& forall|j: int|
                    0 <= j < driver.on_apply(index, command).1.len() && j != i ==> !(
                    #[trigger] driver.on_apply(index, command).1[j] is DeliverCommand)
            },
{
    let effects = driver.on_apply(index, command).1;
    let i = if driver.proposals.dom().contains(index) {
        1int
    } else {
        0int
    };
    assert(effects[i] == EffectView::DeliverCommand(command));
}

/// A client is kept under the index of the entry that its command goes into, which is the one that
/// is handed out for stable storage first.
pub proof fn law_proposals_are_kept_under_their_entry(driver: DriverView, command: Seq<u8>)
    requires
        driver.wf(),
        driver.core.has_room(),
    ensures
        driver.core.on_propose(command).settled().actions[0] == (ActionView::PersistLogEntries {
            start_index: (driver.core.last_index() + 1) as u64,
            entries: seq![EntryView { term: driver.core.current_term, command }],
        }),
{
    let state = driver.core.on_propose(command).state;
    let from = (driver.core.last_index() + 1) as u64;
    assert(state.log.skip(from - state.base) =~= seq![
        EntryView { term: driver.core.current_term, command },
    ]);
}

/// A client that waits under `index` is told when an entry is applied there, before the application
/// gets it, and is not told again when that happens once more.
pub proof fn law_proposals_are_answered_once(
    driver: DriverView,
    index: u64,
    ticket: u64,
    command: Seq<u8>,
    again: Seq<u8>,
)
    requires
        driver.proposals.dom().contains(index),
        driver.proposals[index] == ticket,
    ensures
        driver.on_apply(index, command).1[0] == (EffectView::Reply { ticket, result: Ok(()) }),
        forall|i: int|
            0 < i < driver.on_apply(index, command).1.len() ==> !(#[trigger] driver.on_apply(
                index,
                command,
            ).1[i] is Reply),
        forall|i: int|
            0 <= i < driver.on_apply(index, command).0.on_apply(index, again).1.len() ==> !(
            #[trigger] driver.on_apply(index, command).0.on_apply(index, again).1[i] is Reply),
{
}

/// The application is asked for a snapshot exactly when it has got as many commands as the
/// threshold says since the last one.
pub proof fn law_snapshots_follow_the_threshold(driver: DriverView, index: u64, command: Seq<u8>)
    requires
        driver.num_entries < usize::MAX,
    ensures
        driver.on_apply(index, command).1.contains(EffectView::RequestSnapshot { index })
            <==> command.len() > 0 && driver.num_entries + 1 >= driver.snapshot_threshold,
{
    let effects = driver.on_apply(index, command).1;
    if command.len() > 0 && driver.num_entries + 1 >= driver.snapshot_threshold {
        assert(effects[effects.len() - 1] == EffectView::RequestSnapshot { index });
    }
}

} // verus!
