//! Series of calls of a node. What a node does is a function of its state and of the calls: nothing
//! but the election timeout is left to chance.

use crate::model::{CoreView, Step};
use crate::types::{ActionView, MessageView, RaftState, SnapshotMetadata};
use vstd::prelude::*;

verus! {

/// A call of a node that may change it.
pub enum Call {
    Tick,
    Heartbeat,
    Propose { command: Seq<u8> },
    RequestReadBarrier,
    TakeReadyReads,
    TakePersistence,
    CompleteSnapshot { metadata: SnapshotMetadata },
    Handle { message: MessageView },
}

/// What a call does, if `timeout` is the election timeout that the node has afterwards.
pub open spec fn called(node: CoreView, call: Call, timeout: u64) -> Step {
    let nothing = Seq::<ActionView>::empty();
    match call {
        Call::Tick => node.on_tick(timeout).persisted(),
        Call::Heartbeat => node.on_heartbeat(),
        Call::Propose { command } => if node.state == RaftState::Leader {
            node.on_propose(command)
        } else {
            Step { state: node, actions: nothing }
        },
        Call::RequestReadBarrier => Step {
            state: if node.state == RaftState::Leader {
                node.on_read_request()
            } else {
                node
            },
            actions: nothing,
        },
        Call::TakeReadyReads => Step {
            state: CoreView { read_barriers: node.waiting_reads(), ..node },
            actions: node.read_answers(),
        },
        Call::TakePersistence => Step { state: node.saved(), actions: node.persistence() },
        Call::CompleteSnapshot { metadata } => Step {
            state: node.compacted(metadata),
            actions: nothing,
        },
        Call::Handle { message } => match message {
            MessageView::AppendEntries(_) => node.on_message(message, timeout),
            MessageView::AppendEntriesResponse(_) => node.on_message(message, timeout),
            _ => node.on_message(message, timeout).persisted(),
        },
    }
}

/// Whether a step is one that a call may lead to.
pub open spec fn may_lead_to(node: CoreView, call: Call, step: Step) -> bool {
    &&& step.state.wf()
    &&& step == called(node, call, step.state.election_timeout)
}

/// The node before the call at position `n` of a series.
pub open spec fn node_before(node: CoreView, steps: Seq<Step>, n: int) -> CoreView {
    if n == 0 {
        node
    } else {
        steps[n - 1].state
    }
}

/// Whether a series of calls may lead to the given steps.
pub open spec fn is_series(node: CoreView, calls: Seq<Call>, steps: Seq<Step>) -> bool {
    &&& steps.len() == calls.len()
    &&& forall|n: int|
        0 <= n < calls.len() ==> may_lead_to(
            node_before(node, steps, n),
            #[trigger] calls[n],
            steps[n],
        )
}

/// No call changes the range that timeouts are drawn from.
proof fn lemma_range_is_kept(node: CoreView, call: Call, step: Step)
    requires
        may_lead_to(node, call, step),
    ensures
        step.state.timeout_start == node.timeout_start,
        step.state.timeout_end == node.timeout_end,
{
}

proof fn lemma_same_so_far(
    node: CoreView,
    other: CoreView,
    calls: Seq<Call>,
    steps: Seq<Step>,
    others: Seq<Step>,
    n: int,
)
    requires
        node.wf(),
        node.timeout_end == node.timeout_start + 1,
        other == node,
        is_series(node, calls, steps),
        is_series(other, calls, others),
        0 <= n <= calls.len(),
    ensures
        node_before(node, steps, n) == node_before(other, others, n),
        node_before(node, steps, n).timeout_start == node.timeout_start,
        node_before(node, steps, n).timeout_end == node.timeout_end,
    decreases n,
{
    if n > 0 {
        lemma_same_so_far(node, other, calls, steps, others, n - 1);
        let before = node_before(node, steps, n - 1);
        assert(may_lead_to(before, calls[n - 1], steps[n - 1]));
        assert(may_lead_to(before, calls[n - 1], others[n - 1]));
        lemma_range_is_kept(before, calls[n - 1], steps[n - 1]);
        lemma_range_is_kept(before, calls[n - 1], others[n - 1]);
        assert(steps[n - 1].state.election_timeout == others[n - 1].state.election_timeout);
    }
}

/// Nodes are deterministic where chance has no choice: two nodes that differ in nothing but the
/// timeout that they have drawn, from a range that holds one value, go through the same states and
/// hand out the same actions, call by call, when the same calls are made.
pub proof fn law_same_calls_lead_to_the_same_actions(
    node: CoreView,
    other: CoreView,
    calls: Seq<Call>,
    steps: Seq<Step>,
    others: Seq<Step>,
)
    requires
        node.wf(),
        other.wf(),
        other == (CoreView { election_timeout: other.election_timeout, ..node }),
        node.timeout_end == node.timeout_start + 1,
        is_series(node, calls, steps),
        is_series(other, calls, others),
    ensures
        node == other,
        steps == others,
{
    assert forall|n: int| 0 <= n < calls.len() implies steps[n] == others[n] by {
        lemma_same_so_far(node, other, calls, steps, others, n);
        lemma_same_so_far(node, other, calls, steps, others, n + 1);
        assert(may_lead_to(node_before(node, steps, n), calls[n], steps[n]));
        assert(may_lead_to(node_before(other, others, n), calls[n], others[n]));
    }
    assert(steps =~= others);
}

} // verus!
