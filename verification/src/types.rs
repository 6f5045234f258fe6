//! The messages that nodes exchange, the actions that the state machine asks for, and the
//! mathematical values that the contracts speak of in their place.

use vstd::prelude::*;

verus! {

/// The role of a node in its current term.
#[derive(Debug, Clone, Copy, PartialEq, Eq, Structural)]
pub enum RaftState {
    Leader,
    Follower,
    Candidate,
}

pub type NodeId = u64;

/// An entry in the log
#[derive(Debug, PartialEq)]
pub struct LogEntry {
    pub term: u64,
    /// Serialized version of the command
    pub command: Vec<u8>,
}

/// What a [`LogEntry`] stands for.
pub struct EntryView {
    pub term: u64,
    pub command: Seq<u8>,
}

impl View for LogEntry {
    type V = EntryView;

    open spec fn view(&self) -> EntryView {
        EntryView { term: self.term, command: self.command@ }
    }
}

impl Clone for LogEntry {
    fn clone(&self) -> (copy: Self)
        ensures
            copy@ == self@,
    {
        let command = self.command.clone();
        assert(command@ =~= self.command@);
        LogEntry { term: self.term, command }
    }
}

/// The values of a sequence of entries, in order.
pub open spec fn entries_view(entries: Seq<LogEntry>) -> Seq<EntryView> {
    entries.map_values(|entry: LogEntry| entry@)
}

#[derive(Clone, Copy, Debug, PartialEq)]
pub struct RequestVoteRPC {
    pub term: u64,
    pub candidate_id: u64,
    pub last_log_index: u64,
    pub last_log_term: u64,
}

#[derive(Clone, Copy, Debug, PartialEq)]
pub struct RequestVoteResponseRPC {
    /// Id of responder
    pub id: u64,
    pub term: u64,
    pub vote_granted: bool,
}

#[derive(Clone, Debug, PartialEq)]
pub struct AppendEntriesRPC {
    /// Leader's term
    pub term: u64,
    /// Leader ID
    pub leader_id: NodeId,
    /// Index of log entry immediately preceding new ones as tracked by leader
    pub prev_log_index: u64,
    /// Term of prev_log_index entry
    pub prev_log_term: u64,
    /// log entries to store in this AppendEntries (will be empty for heartbeats)
    pub entries: Vec<LogEntry>,
    /// commit_index of the leader
    pub leader_commit: u64,
}

/// What an [`AppendEntriesRPC`] stands for.
pub struct AppendEntriesView {
    pub term: u64,
    pub leader_id: u64,
    pub prev_log_index: u64,
    pub prev_log_term: u64,
    pub entries: Seq<EntryView>,
    pub leader_commit: u64,
}

impl View for AppendEntriesRPC {
    type V = AppendEntriesView;

    open spec fn view(&self) -> AppendEntriesView {
        AppendEntriesView {
            term: self.term,
            leader_id: self.leader_id,
            prev_log_index: self.prev_log_index,
            prev_log_term: self.prev_log_term,
            entries: entries_view(self.entries@),
            leader_commit: self.leader_commit,
        }
    }
}

#[derive(Clone, Copy, Debug, PartialEq)]
pub struct AppendEntriesResponseRPC {
    /// Id of responder
    pub id: u64,
    /// Term of the node
    pub term: u64,
    /// Match index this follower is on based on the new AppendEntries received
    pub match_index: u64,
    /// Whether the node has an entry at prev_log_index with prev_log_term
    pub success: bool,
    /// Optional index of first log entry that contains a conflicting term
    pub first_conflicting_index: Option<u64>,
    /// Optional term for that conflicting index
    pub first_conflicting_term: Option<u64>,
}

/// The point in the log that a snapshot of the application covers.
#[derive(Clone, Copy, Debug, PartialEq)]
pub struct SnapshotMetadata {
    pub last_applied: u64,
    pub last_applied_term: u64,
}

#[derive(Clone, Debug, PartialEq)]
pub struct InstallSnapshotRPC {
    pub term: u64,
    pub leader_id: NodeId,
    pub last_included_index: u64,
    pub last_included_term: u64,
    pub data: Vec<u8>,
}

/// What an [`InstallSnapshotRPC`] stands for.
pub struct InstallSnapshotView {
    pub term: u64,
    pub leader_id: u64,
    pub last_included_index: u64,
    pub last_included_term: u64,
    pub data: Seq<u8>,
}

impl View for InstallSnapshotRPC {
    type V = InstallSnapshotView;

    open spec fn view(&self) -> InstallSnapshotView {
        InstallSnapshotView {
            term: self.term,
            leader_id: self.leader_id,
            last_included_index: self.last_included_index,
            last_included_term: self.last_included_term,
            data: self.data@,
        }
    }
}

#[derive(Clone, Copy, Debug, PartialEq)]
pub struct InstallSnapshotResponseRPC {
    pub id: NodeId,
    pub term: u64,
    pub last_included_index: u64,
}

/// Everything that one node sends to another.
#[derive(Clone, Debug, PartialEq)]
pub enum Message {
    RequestVote(RequestVoteRPC),
    RequestVoteResponse(RequestVoteResponseRPC),
    AppendEntries(AppendEntriesRPC),
    AppendEntriesResponse(AppendEntriesResponseRPC),
    InstallSnapshot(InstallSnapshotRPC),
    InstallSnapshotResponse(InstallSnapshotResponseRPC),
}

/// What a [`Message`] stands for.
pub enum MessageView {
    RequestVote(RequestVoteRPC),
    RequestVoteResponse(RequestVoteResponseRPC),
    AppendEntries(AppendEntriesView),
    AppendEntriesResponse(AppendEntriesResponseRPC),
    InstallSnapshot(InstallSnapshotView),
    InstallSnapshotResponse(InstallSnapshotResponseRPC),
}

impl View for Message {
    type V = MessageView;

    open spec fn view(&self) -> MessageView {
        match *self {
            Message::RequestVote(req) => MessageView::RequestVote(req),
            Message::RequestVoteResponse(resp) => MessageView::RequestVoteResponse(resp),
            Message::AppendEntries(req) => MessageView::AppendEntries(req@),
            Message::AppendEntriesResponse(resp) => MessageView::AppendEntriesResponse(resp),
            Message::InstallSnapshot(req) => MessageView::InstallSnapshot(req@),
            Message::InstallSnapshotResponse(resp) => MessageView::InstallSnapshotResponse(resp),
        }
    }
}

/// What the state machine asks its driver to do.
#[derive(Debug)]
pub enum Action {
    SendMessage { target: NodeId, message: Message },
    ApplyToStateMachine { index: u64, command: Vec<u8> },
    PersistMetadata { term: u64, voted_for: Option<NodeId> },
    PersistLogEntries { start_index: u64, entries: Vec<LogEntry> },
    SendInstallSnapshot {
        target: NodeId,
        term: u64,
        last_included_index: u64,
        last_included_term: u64,
    },
    InstallSnapshot { last_included_index: u64, last_included_term: u64, data: Vec<u8> },
    ReadBarrierReady { id: u64 },
}

/// What an [`Action`] stands for.
pub enum ActionView {
    SendMessage { target: u64, message: MessageView },
    ApplyToStateMachine { index: u64, command: Seq<u8> },
    PersistMetadata { term: u64, voted_for: Option<u64> },
    PersistLogEntries { start_index: u64, entries: Seq<EntryView> },
    SendInstallSnapshot {
        target: u64,
        term: u64,
        last_included_index: u64,
        last_included_term: u64,
    },
    InstallSnapshot { last_included_index: u64, last_included_term: u64, data: Seq<u8> },
    ReadBarrierReady { id: u64 },
}

impl View for Action {
    type V = ActionView;

    open spec fn view(&self) -> ActionView {
        match *self {
            Action::SendMessage { target, message } => ActionView::SendMessage {
                target,
                message: message@,
            },
            Action::ApplyToStateMachine { index, command } => ActionView::ApplyToStateMachine {
                index,
                command: command@,
            },
            Action::PersistMetadata { term, voted_for } => ActionView::PersistMetadata {
                term,
                voted_for,
            },
            Action::PersistLogEntries { start_index, entries } => ActionView::PersistLogEntries {
                start_index,
                entries: entries_view(entries@),
            },
            Action::SendInstallSnapshot {
                target,
                term,
                last_included_index,
                last_included_term,
            } => ActionView::SendInstallSnapshot {
                target,
                term,
                last_included_index,
                last_included_term,
            },
            Action::InstallSnapshot { last_included_index, last_included_term, data } => {
                ActionView::InstallSnapshot { last_included_index, last_included_term, data: data@ }
            },
            Action::ReadBarrierReady { id } => ActionView::ReadBarrierReady { id },
        }
    }
}

/// The values of a sequence of actions, in order.
pub open spec fn actions_view(actions: Seq<Action>) -> Seq<ActionView> {
    actions.map_values(|action: Action| action@)
}

/// Whether an action writes the term and the vote or entries to stable storage.
pub open spec fn is_persistence(action: ActionView) -> bool {
    action is PersistMetadata || action is PersistLogEntries
}

/// Whether an action changes what is on stable storage.
pub open spec fn changes_storage(action: ActionView) -> bool {
    is_persistence(action) || action is InstallSnapshot
}

} // verus!
