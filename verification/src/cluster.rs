//! A whole cluster: its nodes, the messages between them, and what the nodes have applied. Messages
//! may be lost, delayed, reordered and delivered more than once, and nodes may restart from their
//! stable storage between any two events. A crash in the middle of an event is left out: between
//! storing a snapshot, clearing the log and storing the entries after the snapshot, stable storage
//! does not hold what the node goes on from. What such a crash finds is said in
//! [`crate::durability`].

use crate::model::{CoreView, Step};
use crate::types::{ActionView, InstallSnapshotView, MessageView, RaftState, SnapshotMetadata};
use vstd::prelude::*;

verus! {

/// A message on its way.
pub struct Envelope {
    pub to: u64,
    pub message: MessageView,
}

/// An entry that some node has applied.
pub struct Application {
    pub index: u64,
    pub command: Seq<u8>,
}

/// The node that led in a term.
pub struct Leadership {
    pub term: u64,
    pub node: u64,
}

/// A cluster and what has happened in it so far.
#[verifier::ext_equal]
pub struct Cluster {
    /// The nodes by their ids.
    pub nodes: Map<u64, CoreView>,
    /// Every message that was ever sent.
    pub sent: Set<Envelope>,
    /// Every entry that was ever applied by some node.
    pub applied: Set<Application>,
    /// Who has ever led, and when.
    pub led: Set<Leadership>,
}

/// Something that happens at one node.
pub enum Event {
    Tick { node: u64, timeout: u64 },
    Propose { node: u64, command: Seq<u8> },
    Read { node: u64 },
    Deliver { envelope: Envelope, timeout: u64 },
    /// A snapshot of the application after the entry at `index` takes the place of the entries up
    /// to there.
    Compact { node: u64, index: u64 },
    /// The node loses everything but its stable storage.
    Restart { node: u64, timeout: u64 },
}

impl Event {
    /// Where it happens.
    pub open spec fn node(self) -> u64 {
        match self {
            Event::Tick { node, .. } => node,
            Event::Propose { node, .. } => node,
            Event::Read { node } => node,
            Event::Deliver { envelope, .. } => envelope.to,
            Event::Compact { node, .. } => node,
            Event::Restart { node, .. } => node,
        }
    }
}

/// Whether an action of the node `id` puts a message on its way.
pub open spec fn carries(id: u64, action: ActionView, envelope: Envelope) -> bool {
    match action {
        ActionView::SendMessage { target, message } => envelope == (Envelope {
            to: target,
            message,
        }),
        ActionView::SendInstallSnapshot {
            target,
            term,
            last_included_index,
            last_included_term,
        } => {
            &&& envelope.to == target
            &&& envelope.message matches MessageView::InstallSnapshot(req)
            &&& req == (InstallSnapshotView {
                term,
                leader_id: id,
                last_included_index,
                last_included_term,
                data: req.data,
            })
        },
        _ => false,
    }
}

/// Whether some of the actions puts a message on its way.
pub open spec fn sends(id: u64, actions: Seq<ActionView>, envelope: Envelope) -> bool {
    exists|i: int| 0 <= i < actions.len() && carries(id, #[trigger] actions[i], envelope)
}

/// Whether some of the actions applies an entry.
pub open spec fn applies(actions: Seq<ActionView>, application: Application) -> bool {
    exists|i: int|
        0 <= i < actions.len() && #[trigger] actions[i] == (ActionView::ApplyToStateMachine {
            index: application.index,
            command: application.command,
        })
}

/// A node after a restart: it has the term, the vote, the snapshot and the entries after it.
pub open spec fn restarted(node: CoreView, timeout: u64) -> CoreView {
    CoreView {
        state: RaftState::Follower,
        commit_index: node.base,
        last_applied: node.base,
        next_index: Map::<u64, u64>::empty(),
        match_index: Map::<u64, u64>::empty(),
        votes_received: Set::<u64>::empty(),
        leader_id: None,
        read_barriers: Seq::empty(),
        ticks: 0,
        election_timeout: timeout,
        unsaved_metadata: false,
        unsaved_from: None,
        ..node
    }
}

/// What an event makes of the node where it happens.
pub open spec fn outcome(node: CoreView, event: Event) -> Step {
    match event {
        Event::Tick { timeout, .. } => node.on_tick(timeout).settled(),
        Event::Propose { command, .. } => node.on_propose(command).settled(),
        Event::Read { .. } => (Step {
            state: node.on_read_request(),
            actions: Seq::<ActionView>::empty(),
        }).settled(),
        Event::Deliver { envelope, timeout } => node.on_message(envelope.message, timeout).settled(),
        Event::Compact { index, .. } => Step {
            state: node.compacted(
                SnapshotMetadata {
                    last_applied: index,
                    last_applied_term: node.term_at(index as int),
                },
            ).saved(),
            actions: Seq::<ActionView>::empty(),
        },
        Event::Restart { timeout, .. } => Step {
            state: restarted(node, timeout),
            actions: Seq::<ActionView>::empty(),
        },
    }
}

/// Whether a timeout is one that the node may draw.
pub open spec fn may_draw(node: CoreView, timeout: u64) -> bool {
    node.timeout_start <= timeout < node.timeout_end
}

/// Whether an event can happen at a node.
pub open spec fn can_happen(node: CoreView, event: Event) -> bool {
    match event {
        Event::Tick { timeout, .. } => node.can_tick() && may_draw(node, timeout),
        Event::Propose { .. } => node.state == RaftState::Leader && node.can_propose(),
        Event::Read { .. } => node.state == RaftState::Leader && node.has_room(),
        Event::Deliver { envelope, timeout } => {
            node.can_take(envelope.message) && may_draw(node, timeout)
        },
        Event::Compact { index, .. } => node.can_compact(index),
        Event::Restart { timeout, .. } => may_draw(node, timeout),
    }
}

/// Whether an event can happen in a cluster: no message is delivered that was not sent.
pub open spec fn enabled(cluster: Cluster, event: Event) -> bool {
    &&& cluster.nodes.dom().contains(event.node())
    &&& can_happen(cluster.nodes[event.node()], event)
    &&& event matches Event::Deliver { envelope, .. } ==> cluster.sent.contains(envelope)
}

/// The cluster after an event.
pub open spec fn after(cluster: Cluster, event: Event) -> Cluster {
    let id = event.node();
    let step = outcome(cluster.nodes[id], event);
    Cluster {
        nodes: cluster.nodes.insert(id, step.state),
        sent: cluster.sent.union(
            Set::new(|envelope: Envelope| sends(id, step.actions, envelope)),
        ),
        applied: cluster.applied.union(
            Set::new(|application: Application| applies(step.actions, application)),
        ),
        led: if step.state.state == RaftState::Leader {
            cluster.led.insert(Leadership { term: step.state.current_term, node: id })
        } else {
            cluster.led
        },
    }
}

/// Whether a node is one that starts for the first time in a cluster of the given nodes.
pub open spec fn is_fresh(node: CoreView, id: u64, ids: Set<u64>) -> bool {
    &&& node == (CoreView {
        id: node.id,
        peers: node.peers,
        timeout_start: node.timeout_start,
        timeout_end: node.timeout_end,
        heartbeat_interval: node.heartbeat_interval,
        ..CoreView::fresh(id, Seq::empty(), 0, 0, 0, node.election_timeout)
    })
    &&& node.id == id
    &&& node.peers.no_duplicates()
    &&& node.peers.to_set() == ids.remove(id)
    &&& node.timeout_start <= node.election_timeout < node.timeout_end
}

/// A cluster whose nodes all start for the first time.
pub open spec fn initial(cluster: Cluster) -> bool {
    &&& cluster.nodes.dom().finite()
    &&& forall|id: u64| #[trigger]
        cluster.nodes.dom().contains(id) ==> is_fresh(
            cluster.nodes[id],
            id,
            cluster.nodes.dom(),
        )
    &&& cluster.sent == Set::<Envelope>::empty()
    &&& cluster.applied == Set::<Application>::empty()
    &&& cluster.led == Set::<Leadership>::empty()
}

/// The cluster after the first `n` events.
pub open spec fn reached(start: Cluster, events: Seq<Event>, n: nat) -> Cluster
    decreases n,
{
    if n == 0 {
        start
    } else {
        after(reached(start, events, (n - 1) as nat), events[n - 1])
    }
}

/// A run: a cluster that starts, and events that happen one after the other.
pub open spec fn is_run(start: Cluster, events: Seq<Event>) -> bool {
    &&& initial(start)
    &&& forall|n: int|
        0 <= n < events.len() ==> enabled(reached(start, events, n as nat), #[trigger] events[n])
}

} // verus!
