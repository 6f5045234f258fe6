//! What an event loop does around the state machine: it feeds it with ticks, proposals, reads and
//! messages, turns the actions that come back into effects on the outside world, and keeps track
//! of the clients that wait for an answer. The loop itself performs the effects, in order.
//!
//! A client that waits is known by a ticket, a number that the loop hands in with the request.

use crate::config::{
    node_ids, AddendumView, PersistedLogAddendum, PersistedMetadata, ProposalError, RaftConfig,
    Snapshot, SnapshotView,
};
use crate::model::{heartbeat_or_default, CoreView, Step};
use crate::raft::RaftCore;
use crate::types::{
    actions_view, entries_view, is_persistence, Action, ActionView, EntryView, InstallSnapshotRPC,
    InstallSnapshotView, LogEntry, Message, MessageView, NodeId, RaftState, SnapshotMetadata,
};
use std::collections::HashMap;
use vstd::prelude::*;

verus! {

broadcast use vstd::std_specs::hash::group_hash_axioms;

/// Something for the event loop to do.
#[derive(Debug)]
pub enum Effect {
    /// Hand a message to the transport.
    Send { target: NodeId, message: Message },
    /// Fetch the stored snapshot and send it.
    SendSnapshot {
        target: NodeId,
        term: u64,
        leader_id: NodeId,
        last_included_index: u64,
        last_included_term: u64,
    },
    StoreMetadata(PersistedMetadata),
    StoreLogEntries(PersistedLogAddendum),
    StoreSnapshot(Snapshot),
    /// Clear the log on stable storage.
    TruncateLog,
    /// Hand a replicated command to the application.
    DeliverCommand(Vec<u8>),
    /// Have the application replace its state.
    DeliverSnapshot(Vec<u8>),
    /// Ask the application for its state, which is the one after the entry at `index`.
    RequestSnapshot { index: u64 },
    /// Answer a client.
    Reply { ticket: u64, result: Result<(), ProposalError> },
}

/// What an [`Effect`] stands for.
pub enum EffectView {
    Send { target: u64, message: MessageView },
    SendSnapshot {
        target: u64,
        term: u64,
        leader_id: u64,
        last_included_index: u64,
        last_included_term: u64,
    },
    StoreMetadata(PersistedMetadata),
    StoreLogEntries(AddendumView),
    StoreSnapshot(SnapshotView),
    TruncateLog,
    DeliverCommand(Seq<u8>),
    DeliverSnapshot(Seq<u8>),
    RequestSnapshot { index: u64 },
    Reply { ticket: u64, result: Result<(), ProposalError> },
}

impl View for Effect {
    type V = EffectView;

    open spec fn view(&self) -> EffectView {
        match *self {
            Effect::Send { target, message } => EffectView::Send { target, message: message@ },
            Effect::SendSnapshot {
                target,
                term,
                leader_id,
                last_included_index,
                last_included_term,
            } => EffectView::SendSnapshot {
                target,
                term,
                leader_id,
                last_included_index,
                last_included_term,
            },
            Effect::StoreMetadata(metadata) => EffectView::StoreMetadata(metadata),
            Effect::StoreLogEntries(addendum) => EffectView::StoreLogEntries(addendum@),
            Effect::StoreSnapshot(snapshot) => EffectView::StoreSnapshot(snapshot@),
            Effect::TruncateLog => EffectView::TruncateLog,
            Effect::DeliverCommand(command) => EffectView::DeliverCommand(command@),
            Effect::DeliverSnapshot(data) => EffectView::DeliverSnapshot(data@),
            Effect::RequestSnapshot { index } => EffectView::RequestSnapshot { index },
            Effect::Reply { ticket, result } => EffectView::Reply { ticket, result },
        }
    }
}

/// The values of a sequence of effects, in order.
pub open spec fn effects_view(effects: Seq<Effect>) -> Seq<EffectView> {
    effects.map_values(|effect: Effect| effect@)
}

/// The state of the event loop around a node.
pub struct RaftDriver {
    /// The sans-I/O Raft implementor
    pub core: RaftCore,
    /// The tickets of the proposals that wait, by the index of their entry
    pub pending_proposals: HashMap<u64, u64>,
    /// The tickets of the reads that wait, by the index of their no-op
    pub pending_reads: HashMap<u64, u64>,
    /// Entries since last snapshot
    pub num_entries: usize,
    /// Number of entries to apply before snapshotting
    pub snapshot_threshold: usize,
}

/// What a [`RaftDriver`] stands for.
#[verifier::ext_equal]
pub struct DriverView {
    pub core: CoreView,
    pub proposals: Map<u64, u64>,
    pub reads: Map<u64, u64>,
    pub num_entries: usize,
    pub snapshot_threshold: usize,
}

impl View for RaftDriver {
    type V = DriverView;

    open spec fn view(&self) -> DriverView {
        DriverView {
            core: self.core@,
            proposals: self.pending_proposals@,
            reads: self.pending_reads@,
            num_entries: self.num_entries,
            snapshot_threshold: self.snapshot_threshold,
        }
    }
}

/// What a message has led to.
pub struct Received {
    /// The answers to the clients that waited, if the node led before the message and does not any
    /// more. They come before the actions: the entries that those may apply are another leader's.
    pub refusals: Vec<Effect>,
    /// What to carry out, in order.
    pub actions: Vec<Action>,
    /// Whether the node led before the message and does not any more.
    pub lost_leadership: bool,
}

/// The node that a restart leads to, from what stable storage holds. Without metadata there was no
/// earlier start.
pub open spec fn started(
    fresh: CoreView,
    snapshot: Option<SnapshotView>,
    metadata: Option<PersistedMetadata>,
    entries: Option<Seq<EntryView>>,
) -> CoreView {
    match snapshot {
        Some(snapshot) => fresh.restored(
            metadata->0.term,
            metadata->0.voted_for,
            entries->0,
            snapshot.last_included_index,
            snapshot.last_included_term,
        ),
        None => match metadata {
            Some(metadata) => fresh.restored(
                metadata.term,
                metadata.voted_for,
                match entries {
                    Some(entries) => entries,
                    None => Seq::<EntryView>::empty(),
                },
                0,
                0,
            ),
            None => fresh,
        },
    }
}

pub open spec fn optional_entries(entries: Option<Vec<LogEntry>>) -> Option<Seq<EntryView>> {
    match entries {
        Some(entries) => Some(entries_view(entries@)),
        None => None,
    }
}

pub open spec fn optional_snapshot(snapshot: Option<Snapshot>) -> Option<SnapshotView> {
    match snapshot {
        Some(snapshot) => Some(snapshot@),
        None => None,
    }
}

impl DriverView {
    /// What holds of the event loop between two events.
    pub open spec fn wf(self) -> bool {
        &&& self.core.wf()
        &&& self.core.is_saved()
        &&& self.proposals.dom().finite()
        &&& self.reads.dom().finite()
    }

    /// What becomes of the loop when its node does.
    pub open spec fn with_core(self, core: CoreView) -> DriverView {
        DriverView { core, ..self }
    }

    /// What a tick leads to.
    pub open spec fn on_tick(self, timeout: u64) -> (DriverView, Seq<ActionView>) {
        let step = self.core.on_tick(timeout).settled();
        (self.with_core(step.state), step.actions)
    }

    /// What a proposal leads to at a leader: its ticket waits under the index of its entry.
    pub open spec fn on_propose(self, command: Seq<u8>, ticket: u64) -> (
        DriverView,
        Seq<ActionView>,
    ) {
        let step = self.core.on_propose(command).settled();
        (
            DriverView {
                core: step.state,
                proposals: self.proposals.insert((self.core.last_index() + 1) as u64, ticket),
                ..self
            },
            step.actions,
        )
    }

    /// What a read leads to at a leader: its ticket waits under the index of the no-op that is
    /// added for it.
    pub open spec fn on_read_request(self, ticket: u64) -> (DriverView, Seq<ActionView>) {
        let step = (Step {
            state: self.core.on_read_request(),
            actions: Seq::<ActionView>::empty(),
        }).settled();
        (
            DriverView {
                core: step.state,
                reads: self.reads.insert((self.core.last_index() + 1) as u64, ticket),
                ..self
            },
            step.actions,
        )
    }

    /// What a message leads to. Nobody waits any more at a node that has lost its leadership.
    pub open spec fn on_message(self, message: MessageView, timeout: u64) -> (
        DriverView,
        Seq<ActionView>,
    ) {
        let step = self.core.on_message(message, timeout).settled();
        let kept = if self.core.state == RaftState::Leader && step.state.state
            != RaftState::Leader {
            self.deserted()
        } else {
            self
        };
        (kept.with_core(step.state), step.actions)
    }

    /// The loop when no client waits any more.
    pub open spec fn deserted(self) -> DriverView {
        DriverView { proposals: Map::<u64, u64>::empty(), reads: Map::<u64, u64>::empty(), ..self }
    }

    /// Whether `effects` refuses every client that waits, each one once.
    pub open spec fn refuses_waiting(self, effects: Seq<EffectView>) -> bool {
        exists|first: Seq<EffectView>, second: Seq<EffectView>|
            {
                &&& effects == first + second
                &&& #[trigger] refuses_all(self.proposals, first)
                &&& #[trigger] refuses_all(self.reads, second)
            }
    }

    /// The effects of an entry that is applied: its client hears of it, and the application gets
    /// the command unless it is a no-op. At the threshold the application is asked for a snapshot.
    pub open spec fn on_apply(self, index: u64, command: Seq<u8>) -> (DriverView, Seq<EffectView>) {
        let answered = DriverView { proposals: self.proposals.remove(index), ..self };
        let reply = if self.proposals.dom().contains(index) {
            seq![EffectView::Reply { ticket: self.proposals[index], result: Ok(()) }]
        } else {
            Seq::<EffectView>::empty()
        };
        if command.len() == 0 {
            (answered, reply)
        } else {
            let counted = DriverView { num_entries: (self.num_entries + 1) as usize, ..answered };
            let delivered = reply.push(EffectView::DeliverCommand(command));
            if counted.num_entries >= self.snapshot_threshold {
                (counted, delivered.push(EffectView::RequestSnapshot { index }))
            } else {
                (counted, delivered)
            }
        }
    }

    /// The effects of an action.
    pub open spec fn on_action(self, action: ActionView) -> (DriverView, Seq<EffectView>) {
        match action {
            ActionView::SendMessage { target, message } => (
                self,
                seq![EffectView::Send { target, message }],
            ),
            ActionView::PersistMetadata { term, voted_for } => (
                self,
                seq![EffectView::StoreMetadata(PersistedMetadata { term, voted_for })],
            ),
            ActionView::PersistLogEntries { start_index, entries } => (
                self,
                seq![EffectView::StoreLogEntries(AddendumView { start_index, entries })],
            ),
            ActionView::InstallSnapshot { last_included_index, last_included_term, data } => (
                self,
                seq![
                    EffectView::StoreSnapshot(
                        SnapshotView { last_included_index, last_included_term, data },
                    ),
                    EffectView::DeliverSnapshot(data),
                    EffectView::TruncateLog,
                ],
            ),
            ActionView::SendInstallSnapshot {
                target,
                term,
                last_included_index,
                last_included_term,
            } => (
                self,
                seq![
                    EffectView::SendSnapshot {
                        target,
                        term,
                        leader_id: self.core.id,
                        last_included_index,
                        last_included_term,
                    },
                ],
            ),
            ActionView::ApplyToStateMachine { index, command } => self.on_apply(index, command),
            ActionView::ReadBarrierReady { id } => (
                DriverView { reads: self.reads.remove(id), ..self },
                if self.reads.dom().contains(id) {
                    seq![EffectView::Reply { ticket: self.reads[id], result: Ok(()) }]
                } else {
                    Seq::<EffectView>::empty()
                },
            ),
        }
    }

    /// What the application's state after the entry at `index` leads to: it is stored as a
    /// snapshot, and the entries that it covers are dropped. Those after it stay on stable
    /// storage.
    pub open spec fn on_snapshot(self, index: u64, data: Seq<u8>) -> (DriverView, Seq<EffectView>) {
        let metadata = SnapshotMetadata {
            last_applied: index,
            last_applied_term: self.core.term_at(index as int),
        };
        let compacted = self.core.compacted(metadata);
        (
            DriverView { core: compacted.saved(), num_entries: 0, ..self },
            seq![
                EffectView::StoreSnapshot(
                    SnapshotView {
                        last_included_index: index,
                        last_included_term: metadata.last_applied_term,
                        data,
                    },
                ),
                EffectView::TruncateLog,
            ] + compacted.persistence().map_values(|action: ActionView| stored(action)),
        )
    }
}

/// The effect of an action that writes to stable storage.
pub open spec fn stored(action: ActionView) -> EffectView {
    match action {
        ActionView::PersistMetadata { term, voted_for } => EffectView::StoreMetadata(
            PersistedMetadata { term, voted_for },
        ),
        ActionView::PersistLogEntries { start_index, entries } => EffectView::StoreLogEntries(
            AddendumView { start_index, entries },
        ),
        _ => EffectView::TruncateLog,
    }
}

impl RaftDriver {
    /// What holds of the event loop between two events.
    pub open spec fn wf(&self) -> bool {
        self@.wf()
    }

    /// Starts a node from what stable storage holds. If a snapshot is present, then there MUST be
    /// metadata and log entries.
    pub fn new<A>(
        config: &RaftConfig<A>,
        snapshot: Option<Snapshot>,
        metadata: Option<PersistedMetadata>,
        entries: Option<Vec<LogEntry>>,
    ) -> (driver: Self)
        requires
            config.election_range.start < config.election_range.end,
            snapshot is Some ==> metadata is Some && entries is Some,
            snapshot matches Some(s) ==> s.last_included_index + 1 + entries->0.len() <= u64::MAX,
            entries matches Some(list) ==> 1 + list.len() <= u64::MAX,
        ensures
            driver.wf(),
            driver@ == (DriverView {
                core: started(
                    CoreView::fresh(
                        config.id,
                        node_ids(config.nodes@),
                        heartbeat_or_default(config.heartbeat_interval),
                        config.election_range.start,
                        config.election_range.end,
                        driver@.core.election_timeout,
                    ),
                    optional_snapshot(snapshot),
                    metadata,
                    optional_entries(entries),
                ),
                proposals: Map::<u64, u64>::empty(),
                reads: Map::<u64, u64>::empty(),
                num_entries: 0,
                snapshot_threshold: config.snapshot_threshold,
            }),
    {
        let ids = config.node_ids();
        let range = config.election_range.start..config.election_range.end;
        let core = match snapshot {
            Some(snapshot) => {
                let metadata = metadata.unwrap();
                RaftCore::restore_with_snapshot(
                    config.id,
                    ids.as_slice(),
                    config.heartbeat_interval,
                    range,
                    metadata.term,
                    metadata.voted_for,
                    entries.unwrap(),
                    snapshot.last_included_index,
                    snapshot.last_included_term,
                )
            },
            None => match metadata {
                // no snapshot, so we need to check if we have metadata
                Some(metadata) => {
                    let entries = match entries {
                        Some(entries) => entries,
                        None => Vec::new(),
                    };
                    assert(entries@.len() == 0 ==> entries_view(entries@) =~= Seq::<
                        EntryView,
                    >::empty());
                    RaftCore::restore(
                        config.id,
                        ids.as_slice(),
                        config.heartbeat_interval,
                        range,
                        metadata.term,
                        metadata.voted_for,
                        entries,
                    )
                },
                // starting from scratch (no need to check if log exists because you MUST have
                // current_term to restore)
                None => RaftCore::new(
                    config.id,
                    ids.as_slice(),
                    config.heartbeat_interval,
                    range,
                ),
            },
        };
        RaftDriver {
            core,
            pending_proposals: HashMap::new(),
            pending_reads: HashMap::new(),
            num_entries: 0,
            snapshot_threshold: config.snapshot_threshold,
        }
    }

    /// Puts what stable storage needs before the actions of a step, and the reads that can go
    /// ahead after them.
    fn settle(&mut self, step: Vec<Action>) -> (actions: Vec<Action>)
        requires
            old(self).core.wf(),
            old(self)@.proposals.dom().finite(),
            old(self)@.reads.dom().finite(),
        ensures
            final(self).wf(),
            final(self)@ == old(self)@.with_core(final(self)@.core),
            (Step { state: final(self)@.core, actions: actions_view(actions@) }) == (Step {
                state: old(self)@.core,
                actions: actions_view(step@),
            }).settled(),
    {
        let ghost before = self@.core;
        let mut actions = self.core.take_persistence();
        let ghost first = actions@;
        let mut middle = step;
        actions.append(&mut middle);
        let mut ready = self.core.take_ready_reads();
        let ghost last = ready@;
        actions.append(&mut ready);
        assert(actions_view(actions@) =~= actions_view(first) + actions_view(step@) + actions_view(
            last,
        ));
        actions
    }

    /// The clock ticks.
    pub fn tick(&mut self) -> (actions: Vec<Action>)
        requires
            old(self).wf(),
            old(self)@.core.can_tick(),
        ensures
            final(self).wf(),
            (final(self)@, actions_view(actions@)) == old(self)@.on_tick(
                final(self)@.core.election_timeout,
            ),
    {
        let step = self.core.tick();
        proof {
            lemma_settle_persisted(
                old(self)@.core.on_tick(self@.core.election_timeout),
                Step { state: self@.core, actions: actions_view(step@) },
            );
        }
        self.settle(step)
    }

    /// A client proposes a command. It is answered when the entry at the index of its command is
    /// applied.
    pub fn propose(&mut self, command: Vec<u8>, ticket: u64) -> (outcome: Result<
        Vec<Action>,
        ProposalError,
    >)
        requires
            old(self).wf(),
            old(self)@.core.can_propose(),
        ensures
            final(self).wf(),
            outcome is Ok <==> old(self)@.core.state == RaftState::Leader,
            outcome matches Err(error) ==> error == (ProposalError::FollowerNode {
                leader: old(self)@.core.leader_id,
            }) && final(self)@ == old(self)@,
            outcome matches Ok(actions) ==> (final(self)@, actions_view(actions@)) == old(
                self,
            )@.on_propose(command@, ticket),
    {
        match self.core.propose(command) {
            Some(step) => {
                let index: u64 = self.core.last_index();
                let _ = self.pending_proposals.insert(index, ticket);
                Ok(self.settle(step))
            },
            None => Err(ProposalError::FollowerNode { leader: self.core.leader_id }),
        }
    }

    /// A client wants to read. It is answered when the node has proved to be the leader still.
    pub fn read_request(&mut self, ticket: u64) -> (outcome: Result<Vec<Action>, ProposalError>)
        requires
            old(self).wf(),
            old(self)@.core.has_room(),
        ensures
            final(self).wf(),
            outcome is Ok <==> old(self)@.core.state == RaftState::Leader,
            outcome matches Err(error) ==> error == (ProposalError::FollowerNode {
                leader: old(self)@.core.leader_id,
            }) && final(self)@ == old(self)@,
            outcome matches Ok(actions) ==> (final(self)@, actions_view(actions@)) == old(
                self,
            )@.on_read_request(ticket),
    {
        match self.core.request_read_barrier() {
            Some(index) => {
                let _ = self.pending_reads.insert(index, ticket);
                let step = Vec::new();
                assert(actions_view(step@) =~= Seq::<ActionView>::empty());
                Ok(self.settle(step))
            },
            None => Err(ProposalError::FollowerNode { leader: self.core.leader_id }),
        }
    }

    /// A message arrives from another node. If it costs the node its leadership, the clients that
    /// wait are refused before anything else is done.
    pub fn handle_message(&mut self, message: Message) -> (received: Received)
        requires
            old(self).wf(),
            old(self)@.core.can_take(message@),
        ensures
            final(self).wf(),
            (final(self)@, actions_view(received.actions@)) == old(self)@.on_message(
                message@,
                final(self)@.core.election_timeout,
            ),
            received.lost_leadership ==> final(self)@.proposals == Map::<u64, u64>::empty()
                && final(self)@.reads == Map::<u64, u64>::empty()
                && old(self)@.refuses_waiting(effects_view(received.refusals@)),
            !received.lost_leadership ==> received.refusals@.len() == 0,
            received.lost_leadership <==> old(self)@.core.state == RaftState::Leader
                && final(self)@.core.state != RaftState::Leader,
    {
        let before = self.core.is_leader();
        let step = match message {
            Message::RequestVote(req) => self.core.handle_request_vote(req),
            Message::RequestVoteResponse(resp) => self.core.handle_request_vote_response(resp),
            Message::AppendEntries(req) => self.core.handle_append_entries(req),
            Message::AppendEntriesResponse(resp) => self.core.handle_append_entries_response(resp),
            Message::InstallSnapshot(req) => self.core.handle_install_snapshot(req),
            Message::InstallSnapshotResponse(resp) => {
                self.core.handle_install_snapshot_response(resp)
            },
        };
        proof {
            lemma_settle_persisted(
                old(self)@.core.on_message(message@, self@.core.election_timeout),
                Step { state: self@.core, actions: actions_view(step@) },
            );
        }
        let actions = self.settle(step);
        let lost_leadership = before && !self.core.is_leader();
        let refusals = if lost_leadership {
            self.refuse_pending()
        } else {
            Vec::new()
        };
        assert(self@ =~= old(self)@.on_message(message@, self@.core.election_timeout).0);
        Received { refusals, actions, lost_leadership }
    }

    /// The effects of an action.
    pub fn handle_action(&mut self, action: Action) -> (effects: Vec<Effect>)
        requires
            old(self).wf(),
            old(self)@.num_entries < usize::MAX,
        ensures
            final(self).wf(),
            (final(self)@, effects_view(effects@)) == old(self)@.on_action(action@),
    {
        let effects = match action {
            Action::SendMessage { target, message } => vec![Effect::Send { target, message }],
            Action::PersistMetadata { term, voted_for } => {
                vec![Effect::StoreMetadata(PersistedMetadata { term, voted_for })]
            },
            Action::PersistLogEntries { start_index, entries } => {
                vec![Effect::StoreLogEntries(PersistedLogAddendum { start_index, entries })]
            },
            Action::InstallSnapshot { last_included_index, last_included_term, data } => {
                let copy = data.clone();
                assert(copy@ =~= data@);
                // store the snapshot, restore application state, and clear the log on stable
                // storage (what the node keeps of it is stored again by the next action)
                vec![
                    Effect::StoreSnapshot(
                        Snapshot { last_included_index, last_included_term, data: copy },
                    ),
                    Effect::DeliverSnapshot(data),
                    Effect::TruncateLog,
                ]
            },
            Action::SendInstallSnapshot {
                target,
                term,
                last_included_index,
                last_included_term,
            } => {
                vec![
                    Effect::SendSnapshot {
                        target,
                        term,
                        leader_id: self.core.id,
                        last_included_index,
                        last_included_term,
                    },
                ]
            },
            Action::ApplyToStateMachine { index, command } => self.apply(index, command),
            Action::ReadBarrierReady { id } => {
                let mut effects: Vec<Effect> = Vec::new();
                if let Some(ticket) = self.pending_reads.remove(&id) {
                    effects.push(Effect::Reply { ticket, result: Ok(()) });
                }
                effects
            },
        };
        proof {
            let expected = old(self)@.on_action(action@);
            assert(effects_view(effects@) =~= expected.1);
            assert(self@ =~= expected.0);
        }
        effects
    }

    /// The effects of an entry that is applied.
    fn apply(&mut self, index: u64, command: Vec<u8>) -> (effects: Vec<Effect>)
        requires
            old(self).wf(),
            old(self)@.num_entries < usize::MAX,
        ensures
            final(self).wf(),
            (final(self)@, effects_view(effects@)) == old(self)@.on_apply(index, command@),
    {
        let mut effects: Vec<Effect> = Vec::new();
        // look up the index in the map and reply that the command was replicated
        if let Some(ticket) = self.pending_proposals.remove(&index) {
            effects.push(Effect::Reply { ticket, result: Ok(()) });
        }
        // if the command is empty, we don't send to the application

        if command.len() > 0 {
            effects.push(Effect::DeliverCommand(command));
            self.num_entries = self.num_entries + 1;
            if self.num_entries >= self.snapshot_threshold {
                effects.push(Effect::RequestSnapshot { index });
            }
        }
        proof {
            let expected = old(self)@.on_apply(index, command@);
            assert(effects_view(effects@) =~= expected.1);
            assert(self@ =~= expected.0);
        }
        effects
    }

    /// The node no longer leads: the clients that wait for a proposal or a read hear of it.
    fn refuse_pending(&mut self) -> (effects: Vec<Effect>)
        requires
            old(self).wf(),
        ensures
            final(self).wf(),
            final(self)@ == old(self)@.deserted(),
            old(self)@.refuses_waiting(effects_view(effects@)),
    {
        let mut effects = refuse_all(&self.pending_proposals);
        let mut reads = refuse_all(&self.pending_reads);
        let ghost first = effects_view(effects@);
        let ghost second = effects_view(reads@);
        effects.append(&mut reads);
        self.pending_proposals.clear();
        self.pending_reads.clear();
        proof {
            assert(effects_view(effects@) =~= first + second);
            assert(refuses_all(old(self)@.proposals, first));
            assert(refuses_all(old(self)@.reads, second));
        }
        effects
    }

    /// The application has handed over its state after the entry at `index`.
    pub fn snapshot_taken(&mut self, index: u64, data: Vec<u8>) -> (effects: Vec<Effect>)
        requires
            old(self).wf(),
            old(self)@.core.can_compact(index),
        ensures
            final(self).wf(),
            (final(self)@, effects_view(effects@)) == old(self)@.on_snapshot(index, data@),
    {
        let metadata = self.core.prepare_snapshot(index);
        let mut effects = vec![
            Effect::StoreSnapshot(
                Snapshot {
                    last_included_index: metadata.last_applied,
                    last_included_term: metadata.last_applied_term,
                    data,
                },
            ),
            Effect::TruncateLog,
        ];
        self.core.complete_snapshot(metadata);
        let ghost compacted = self@.core;
        self.num_entries = 0;
        // clearing the log took the entries after the snapshot as well
        let ghost first = effects@;
        let persistence = self.core.take_persistence();
        assert forall|i: int| 0 <= i < persistence@.len() implies is_persistence(
            #[trigger] actions_view(persistence@)[i],
        ) by {
            let expected = compacted.persistence();
            assert(actions_view(persistence@)[i] == expected[i]);
            assert(expected.len() == persistence@.len());
            assert(is_persistence(expected[i]));
        }
        let mut rest = store_all(persistence);
        let ghost second = rest@;
        effects.append(&mut rest);
        proof {
            assert(effects_view(effects@) =~= effects_view(first) + effects_view(second));
            assert(effects_view(effects@) =~= old(self)@.on_snapshot(index, data@).1);
            let expected = old(self)@.on_snapshot(index, data@);
            assert(effects_view(effects@) =~= expected.1);
            assert(self@ =~= expected.0);
        }
        effects
    }
}

/// What stable storage needs is handed out once.
proof fn lemma_settle_persisted(step: Step, handed: Step)
    requires
        handed == step || handed == step.persisted(),
    ensures
        handed.settled() == step.settled(),
{
    let saved = step.state.saved();
    assert(saved.saved() == saved);
    assert(saved.persistence() =~= Seq::<ActionView>::empty());
    assert(step.persisted().settled().actions =~= step.settled().actions);
}

/// The effects of actions that write to stable storage.
fn store_all(actions: Vec<Action>) -> (effects: Vec<Effect>)
    requires
        forall|i: int|
            0 <= i < actions@.len() ==> is_persistence(#[trigger] actions_view(actions@)[i]),
    ensures
        effects_view(effects@) == actions_view(actions@).map_values(
            |action: ActionView| stored(action),
        ),
{
    let ghost all = actions_view(actions@);
    let ghost mut done: int = 0;
    let mut rest = actions;
    let mut effects: Vec<Effect> = Vec::new();
    assert(all.skip(0) =~= all);
    assert(effects_view(effects@) =~= all.take(0).map_values(|action: ActionView| stored(action)));
    while rest.len() > 0
        invariant
            forall|i: int| 0 <= i < all.len() ==> is_persistence(#[trigger] all[i]),
            0 <= done <= all.len(),
            actions_view(rest@) == all.skip(done),
            effects_view(effects@) == all.take(done).map_values(
                |action: ActionView| stored(action),
            ),
        decreases rest@.len(),
    {
        let ghost before = rest@;
        let ghost earlier = effects@;
        let action = rest.remove(0);
        let ghost value = action@;
        assert(actions_view(before).len() == before.len());
        assert(actions_view(before)[0] == value);
        assert(before.len() == all.len() - done);
        assert(is_persistence(all[done]));
        match action {
            Action::PersistMetadata { term, voted_for } => {
                effects.push(Effect::StoreMetadata(PersistedMetadata { term, voted_for }));
            },
            Action::PersistLogEntries { start_index, entries } => {
                effects.push(Effect::StoreLogEntries(PersistedLogAddendum { start_index, entries }));
            },
            _ => {},
        }
        proof {
            assert forall|i: int| 0 <= i < rest@.len() implies #[trigger] actions_view(rest@)[i]
                == all.skip(done + 1)[i] by {
                assert(actions_view(before)[i + 1] == all.skip(done)[i + 1]);
            }
            assert(actions_view(rest@) =~= all.skip(done + 1));
            assert(effects_view(effects@) =~= effects_view(earlier).push(stored(value)));
            assert(effects_view(effects@) =~= all.take(done + 1).map_values(
                |action: ActionView| stored(action),
            ));
            done = done + 1;
        }
    }
    proof {
        assert(all.skip(done).len() == 0);
        assert(all.take(done) =~= all);
    }
    effects
}

/// The word to a client that the node no longer leads.
pub open spec fn refusal(ticket: u64) -> EffectView {
    EffectView::Reply { ticket, result: Err(ProposalError::LostLeadership) }
}

/// Whether `effects` refuses every client in `pending`, each one once and in whatever order.
pub open spec fn refuses_all(pending: Map<u64, u64>, effects: Seq<EffectView>) -> bool {
    exists|keys: Seq<u64>|
        {
            &&& keys.no_duplicates()
            &&& #[trigger] keys.to_set() == pending.dom()
            &&& effects == keys.map_values(|key: u64| refusal(pending[key]))
        }
}

/// Refuses every client in `pending`.
fn refuse_all(pending: &HashMap<u64, u64>) -> (effects: Vec<Effect>)
    ensures
        refuses_all(pending@, effects_view(effects@)),
{
    let mut effects: Vec<Effect> = Vec::new();
    let mut seen: Vec<u64> = Vec::new();
    let size: usize = pending.len();
    proof {
        if size == 0 {
            assert(pending@.dom() =~= Set::<u64>::empty());
            assert(seen@.to_set() =~= Set::<u64>::empty());
        }
    }
    for key in it: pending.keys()
        invariant
            size == pending@.dom().len(),
            it.seq().unref().to_set() == pending@.dom(),
            it.seq().no_duplicates(),
            it.seq().len() == size,
            seen@ == it.seq().unref().take(it.index() as int),
            seen@.no_duplicates(),
            it.index() == size ==> seen@.to_set() == pending@.dom(),
            effects_view(effects@) == seen@.map_values(|key: u64| refusal(pending@[key])),
    {
        let ghost before = effects@;
        let ghost old_seen = seen@;
        proof {
            let keys = it.seq().unref();
            let i = it.index() as int;
            assert(keys[i] == *key);
            assert(keys.contains(*key));
            assert(pending@.dom().contains(*key));
            assert(keys.take(i + 1) =~= keys.take(i).push(*key));
            assert(i + 1 == size ==> keys.take(i + 1) =~= keys);
            assert(!old_seen.contains(*key)) by {
                if old_seen.contains(*key) {
                    let j = choose|j: int| 0 <= j < old_seen.len() && old_seen[j] == *key;
                    assert(it.seq()[j] == it.seq()[i]);
                }
            }
        }
        seen.push(*key);
        if let Some(ticket) = pending.get(key) {
            let effect = Effect::Reply {
                ticket: *ticket,
                result: Err(ProposalError::LostLeadership),
            };
            effects.push(effect);
            assert(effects_view(effects@) =~= effects_view(before).push(effect@));
        }
        assert(seen@.map_values(|key: u64| refusal(pending@[key])) =~= old_seen.map_values(
            |key: u64| refusal(pending@[key]),
        ).push(refusal(pending@[*key])));
    }
    assert(effects_view(effects@) =~= seen@.map_values(|key: u64| refusal(pending@[key])));
    assert(seen@.to_set() == pending@.dom());
    effects
}

/// The message that carries a stored snapshot to a follower.
pub fn snapshot_message(
    term: u64,
    leader_id: NodeId,
    last_included_index: u64,
    last_included_term: u64,
    data: Vec<u8>,
) -> (message: Message)
    ensures
        message@ == MessageView::InstallSnapshot(
            InstallSnapshotView {
                term,
                leader_id,
                last_included_index,
                last_included_term,
                data: data@,
            },
        ),
{
    Message::InstallSnapshot(
        InstallSnapshotRPC { term, leader_id, last_included_index, last_included_term, data },
    )
}

} // verus!
