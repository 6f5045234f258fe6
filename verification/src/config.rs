//! How a node is set up, what it keeps on stable storage, and how a proposal fails.

use crate::types::{entries_view, EntryView, LogEntry, NodeId};
use std::ops::Range;
use vstd::prelude::*;

verus! {

/// One member of the cluster, and where the transport finds it.
pub struct RaftNodeDescription<A> {
    pub id: NodeId,
    pub address: A,
}

/// The ids of the members, in order.
pub open spec fn node_ids<A>(nodes: Seq<RaftNodeDescription<A>>) -> Seq<u64> {
    nodes.map_values(|node: RaftNodeDescription<A>| node.id)
}

/// The setup of a node.
pub struct RaftConfig<A> {
    pub id: NodeId,
    pub nodes: Vec<RaftNodeDescription<A>>,
    pub heartbeat_interval: Option<u64>,
    pub election_range: Range<u64>,
    /// The length of a tick in milliseconds.
    pub tick_length: u64,
    /// The number of applied entries after which a snapshot is taken.
    pub snapshot_threshold: usize,
}

impl<A> RaftConfig<A> {
    /// The ids of all members of the cluster.
    pub fn node_ids(&self) -> (ids: Vec<NodeId>)
        ensures
            ids@ == node_ids(self.nodes@),
    {
        let mut ids: Vec<NodeId> = Vec::new();
        let mut i: usize = 0;
        while i < self.nodes.len()
            invariant
                0 <= i <= self.nodes.len(),
                ids@ == node_ids(self.nodes@).take(i as int),
            decreases self.nodes.len() - i,
        {
            ids.push(self.nodes[i].id);
            i = i + 1;
            assert(ids@ =~= node_ids(self.nodes@).take(i as int));
        }
        assert(ids@ =~= node_ids(self.nodes@));
        ids
    }
}

/// Every member has its id at its place.
pub proof fn law_members_keep_their_place<A>(nodes: Seq<RaftNodeDescription<A>>, i: int)
    requires
        0 <= i < nodes.len(),
    ensures
        node_ids(nodes).len() == nodes.len(),
        node_ids(nodes)[i] == nodes[i].id,
{
}

/// The term and the vote, as they are kept on stable storage.
#[derive(Clone, Copy, Debug, PartialEq)]
pub struct PersistedMetadata {
    pub term: u64,
    pub voted_for: Option<NodeId>,
}

/// Entries for the log on stable storage: they replace all that is there from `start_index` on.
#[derive(Clone, Debug)]
pub struct PersistedLogAddendum {
    pub start_index: u64,
    pub entries: Vec<LogEntry>,
}

/// What a [`PersistedLogAddendum`] stands for.
pub struct AddendumView {
    pub start_index: u64,
    pub entries: Seq<EntryView>,
}

impl View for PersistedLogAddendum {
    type V = AddendumView;

    open spec fn view(&self) -> AddendumView {
        AddendumView { start_index: self.start_index, entries: entries_view(self.entries@) }
    }
}

/// The state of the application after the entry at `last_included_index`.
#[derive(Clone, Debug)]
pub struct Snapshot {
    pub last_included_index: u64,
    pub last_included_term: u64,
    pub data: Vec<u8>,
}

/// What a [`Snapshot`] stands for.
pub struct SnapshotView {
    pub last_included_index: u64,
    pub last_included_term: u64,
    pub data: Seq<u8>,
}

impl View for Snapshot {
    type V = SnapshotView;

    open spec fn view(&self) -> SnapshotView {
        SnapshotView {
            last_included_index: self.last_included_index,
            last_included_term: self.last_included_term,
            data: self.data@,
        }
    }
}

/// Why a proposal or a read was not carried out.
#[derive(Debug, Clone, Copy, PartialEq, Eq, Structural)]
pub enum ProposalError {
    /// The node does not lead; it may know who does.
    FollowerNode { leader: Option<NodeId> },
    LostLeadership,
    OtherError,
}

impl ProposalError {
    /// The error in words.
    pub open spec fn words(self) -> Seq<char> {
        match self {
            ProposalError::FollowerNode { .. } => {
                "Node is not the leader and cannot propose commands"@
            },
            ProposalError::LostLeadership => {
                "Node lost its status as leader and cannot propose commands anymore"@
            },
            ProposalError::OtherError => "An unknown error occurred"@,
        }
    }

    /// The error in words.
    pub fn text(&self) -> (text: &'static str)
        ensures
            text@ == self.words(),
    {
        match self {
            ProposalError::FollowerNode { .. } => {
                "Node is not the leader and cannot propose commands"
            },
            ProposalError::LostLeadership => {
                "Node lost its status as leader and cannot propose commands anymore"
            },
            ProposalError::OtherError => "An unknown error occurred",
        }
    }
}

} // verus!
