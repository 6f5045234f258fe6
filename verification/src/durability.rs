//! What stable storage holds: it keeps up with the node, and a node that restarts from it has its
//! term, its vote, its snapshot and its log.

use crate::cluster::{can_happen, outcome, restarted, Event};
use crate::config::{AddendumView, PersistedMetadata, Snapshot, SnapshotView};
use crate::driver::{optional_entries, optional_snapshot, started, DriverView, EffectView};
use crate::laws::law_nodes_stay_in_order;
use crate::model::{other_nodes, placeholder, CoreView, Step};
use crate::raft::lemma_first_missing;
use crate::reads::bare_step;
use crate::storage::{indexed, log_before, plain, IndexedEntry, Storage};
use crate::types::{
    changes_storage, entries_view, ActionView, EntryView, LogEntry, MessageView, RaftState,
    SnapshotMetadata,
};
use vstd::prelude::*;

verus! {

/// What stable storage holds.
#[verifier::ext_equal]
pub struct Durable {
    pub metadata: Option<PersistedMetadata>,
    pub log: Seq<IndexedEntry>,
    /// Whether a log was ever written.
    pub log_exists: bool,
    pub snapshot: Option<SnapshotView>,
}

/// What a storage holds.
pub open spec fn kept_by<S: Storage>(storage: S) -> Durable {
    Durable {
        metadata: storage.stored_metadata(),
        log: storage.stored_log(),
        log_exists: storage.log_exists(),
        snapshot: storage.stored_snapshot(),
    }
}

impl Durable {
    /// Stable storage after an effect, as every storage promises it.
    pub open spec fn after(self, effect: EffectView) -> Durable {
        match effect {
            EffectView::StoreMetadata(metadata) => Durable { metadata: Some(metadata), ..self },
            EffectView::StoreLogEntries(addendum) => Durable {
                log: log_before(self.log, addendum.start_index) + indexed(addendum),
                log_exists: true,
                ..self
            },
            EffectView::StoreSnapshot(snapshot) => Durable { snapshot: Some(snapshot), ..self },
            EffectView::TruncateLog => Durable { log: Seq::<IndexedEntry>::empty(), ..self },
            _ => self,
        }
    }

    /// Stable storage after effects, one after the other.
    pub open spec fn after_all(self, effects: Seq<EffectView>) -> Durable
        decreases effects.len(),
    {
        if effects.len() == 0 {
            self
        } else {
            self.after_all(effects.drop_last()).after(effects.last())
        }
    }

    /// Stable storage after an action.
    pub open spec fn after_action(self, action: ActionView) -> Durable {
        match action {
            ActionView::PersistMetadata { term, voted_for } => self.after(
                EffectView::StoreMetadata(PersistedMetadata { term, voted_for }),
            ),
            ActionView::PersistLogEntries { start_index, entries } => self.after(
                EffectView::StoreLogEntries(AddendumView { start_index, entries }),
            ),
            ActionView::InstallSnapshot { last_included_index, last_included_term, data } => {
                self.after(
                    EffectView::StoreSnapshot(
                        SnapshotView { last_included_index, last_included_term, data },
                    ),
                ).after(EffectView::TruncateLog)
            },
            _ => self,
        }
    }

    /// Stable storage after actions, one after the other.
    pub open spec fn after_actions(self, actions: Seq<ActionView>) -> Durable
        decreases actions.len(),
    {
        if actions.len() == 0 {
            self
        } else {
            self.after_actions(actions.drop_last()).after_action(actions.last())
        }
    }

    /// Whether storage holds all that a node must not forget.
    pub open spec fn holds(self, node: CoreView) -> bool {
        &&& node.is_saved()
        &&& node.log[0] == placeholder(node.log[0].term)
        &&& match self.metadata {
            Some(metadata) => metadata.term == node.current_term && metadata.voted_for
                == node.voted_for,
            None => is_untouched(node),
        }
        &&& self.log == indexed(
            AddendumView { start_index: (node.base + 1) as u64, entries: node.log.skip(1) },
        )
        &&& self.log.len() > 0 ==> self.log_exists
        &&& match self.snapshot {
            Some(snapshot) => snapshot.last_included_index == node.base
                && snapshot.last_included_term == node.log[0].term && self.metadata is Some,
            None => node.base == 0 && node.log[0].term == 0,
        }
    }
}

/// Whether nothing has happened to a node yet that would have to be stored.
pub open spec fn is_untouched(node: CoreView) -> bool {
    &&& node.current_term == 0
    &&& node.voted_for is None
    &&& node.state == RaftState::Follower
    &&& node.base == 0
    &&& node.log.len() == 1
}

/// What the event loop does on account of an action changes stable storage in the way that is said
/// of the action.
pub proof fn law_actions_reach_storage(driver: DriverView, action: ActionView, durable: Durable)
    ensures
        durable.after_all(driver.on_action(action).1) == durable.after_action(action),
{
    reveal_with_fuel(Durable::after_all, 4);
    let effects = driver.on_action(action).1;
    assert(effects.len() <= 3);
    if effects.len() == 1 {
        assert(effects.drop_last() =~= Seq::<EffectView>::empty());
    } else if effects.len() == 2 {
        assert(effects.drop_last().drop_last() =~= Seq::<EffectView>::empty());
    } else if effects.len() == 3 {
        assert(effects.drop_last().drop_last().drop_last() =~= Seq::<EffectView>::empty());
    }
}

proof fn lemma_after_actions(durable: Durable, a: Seq<ActionView>, b: Seq<ActionView>)
    ensures
        durable.after_actions(a + b) == durable.after_actions(a).after_actions(b),
    decreases b.len(),
{
    if b.len() == 0 {
        assert(a + b =~= a);
    } else {
        lemma_after_actions(durable, a, b.drop_last());
        assert((a + b).drop_last() =~= a + b.drop_last());
    }
}

proof fn lemma_nothing_stored(durable: Durable, actions: Seq<ActionView>)
    requires
        forall|i: int| 0 <= i < actions.len() ==> !changes_storage(#[trigger] actions[i]),
    ensures
        durable.after_actions(actions) == durable,
    decreases actions.len(),
{
    if actions.len() > 0 {
        lemma_nothing_stored(durable, actions.drop_last());
        assert(!changes_storage(actions[actions.len() - 1]));
    }
}

proof fn lemma_log_before(addendum: AddendumView, index: u64)
    requires
        addendum.start_index <= index <= addendum.start_index + addendum.entries.len(),
        addendum.start_index + addendum.entries.len() <= u64::MAX,
    ensures
        log_before(indexed(addendum), index) == indexed(
            AddendumView {
                entries: addendum.entries.take(index - addendum.start_index),
                ..addendum
            },
        ),
    decreases addendum.entries.len(),
{
    let all = indexed(addendum);
    let kept = indexed(
        AddendumView {
            entries: addendum.entries.take(index - addendum.start_index),
            ..addendum
        },
    );
    if addendum.entries.len() == 0 || addendum.start_index == index {
        assert(log_before(all, index) =~= kept);
    } else {
        let rest = AddendumView {
            start_index: (addendum.start_index + 1) as u64,
            entries: addendum.entries.skip(1),
        };
        lemma_log_before(rest, index);
        assert(all.skip(1) =~= indexed(rest));
        assert(all[0].index == addendum.start_index);
        assert(log_before(all, index) =~= kept);
    }
}

/// Whether what has changed in a node is marked as such.
pub open spec fn changes_are_marked(node: CoreView, next: CoreView) -> bool {
    &&& next.base == node.base
    &&& next.log.len() >= 1
    &&& next.log[0] == node.log[0]
    &&& !next.unsaved_metadata ==> next.current_term == node.current_term && next.voted_for
        == node.voted_for
    &&& !next.unsaved_metadata && is_untouched(node) ==> is_untouched(next)
    &&& match next.unsaved_from {
        None => next.log == node.log,
        Some(from) => {
            &&& node.base < from <= node.last_index() + 1
            &&& from <= next.last_index()
            &&& next.log.take(from - node.base) == node.log.take(from - node.base)
        },
    }
}

/// The node before a step with the term and the vote of the node after it.
pub open spec fn with_metadata_of(node: CoreView, next: CoreView) -> CoreView {
    CoreView { current_term: next.current_term, voted_for: next.voted_for, ..node }
}

/// The entries of a step on stable storage.
proof fn lemma_entries_stored(node: CoreView, next: CoreView, durable: Durable)
    requires
        node.wf(),
        durable.holds(with_metadata_of(node, next)),
        next.wf(),
        changes_are_marked(node, next),
        next.unsaved_from is Some,
        durable.metadata is Some || is_untouched(next),
    ensures
        durable.after_action(
            ActionView::PersistLogEntries {
                start_index: next.unsaved_from->0,
                entries: next.log.skip(next.unsaved_from->0 - next.base),
            },
        ).holds(next.saved()),
{
    let from = next.unsaved_from->0;
    let whole = AddendumView {
        start_index: (node.base + 1) as u64,
        entries: next.log.skip(1),
    };
    let entries = next.log.skip(from - next.base);
    let added = AddendumView { start_index: from, entries };
    let old = AddendumView { start_index: (node.base + 1) as u64, entries: node.log.skip(1) };
    lemma_log_before(old, from);
    let kept = AddendumView { entries: old.entries.take(from - node.base - 1), ..old };
    assert(indexed(kept) + indexed(added) =~= indexed(whole)) by {
        assert forall|i: int| 0 <= i < kept.entries.len() implies kept.entries[i]
            == whole.entries[i] by {
            assert(next.log.take(from - node.base)[i + 1] == node.log.take(from - node.base)[i
                + 1]);
        }
    }
    assert(next.log[0] == next.log.take(from - node.base)[0]);
    assert(node.log[0] == node.log.take(from - node.base)[0]);
}

/// What a step marks for stable storage, on stable storage.
proof fn lemma_persistence_stored(node: CoreView, next: CoreView, durable: Durable)
    requires
        node.wf(),
        durable.holds(node),
        next.wf(),
        changes_are_marked(node, next),
    ensures
        durable.after_actions(next.persistence()).holds(next.saved()),
        next.unsaved_metadata ==> durable.after_action(next.persistence()[0]).holds(
            with_metadata_of(node, next),
        ),
{
    reveal_with_fuel(Durable::after_actions, 3);
    let first = next.persistence();
    let marked = if next.unsaved_metadata {
        durable.after_action(first[0])
    } else {
        durable
    };
    assert(marked.holds(with_metadata_of(node, next)));
    if next.unsaved_from is Some {
        lemma_entries_stored(node, next, marked);
        if next.unsaved_metadata {
            assert(first.drop_last().drop_last() =~= Seq::<ActionView>::empty());
        } else {
            assert(first.drop_last() =~= Seq::<ActionView>::empty());
        }
    } else if next.unsaved_metadata {
        assert(first.drop_last() =~= Seq::<ActionView>::empty());
    }
}

/// Entries from a leader are marked when they change the log.
proof fn lemma_merge_is_marked(
    node: CoreView,
    following: CoreView,
    prev: u64,
    term: u64,
    entries: Seq<EntryView>,
)
    requires
        node.wf(),
        following.log == node.log,
        following.base == node.base,
        node.unsaved_from is None,
        following.unsaved_from is None,
        following.agrees_at(prev, term),
        prev + 1 + entries.len() <= u64::MAX,
    ensures
        ({
            let merged = following.merged(prev, entries);
            &&& merged.log.len() >= 1
            &&& merged.log[0] == node.log[0]
            &&& match merged.unsaved_from {
                None => merged.log == node.log,
                Some(from) => {
                    &&& node.base < from <= node.last_index() + 1
                    &&& from <= merged.last_index()
                    &&& merged.log.take(from - node.base) == node.log.take(from - node.base)
                },
            }
        }),
{
    lemma_first_missing(following, prev, entries, 0);
    let k = following.first_missing(prev, entries, 0);
    if k < entries.len() {
        let merged = following.merged(prev, entries);
        let from = prev + 1 + k;
        assert(merged.log.take(from - node.base) =~= node.log.take(from - node.base));
    }
}

/// Whether a message of a leader is one of a term that has leaders. There are none in the term that
/// nodes start in.
pub open spec fn comes_from_a_leader(message: MessageView) -> bool {
    match message {
        MessageView::AppendEntries(req) => req.term >= 1,
        MessageView::InstallSnapshot(req) => req.term >= 1,
        _ => true,
    }
}

/// Entries from a leader leave only what is marked to stable storage.
proof fn lemma_entries_are_marked(node: CoreView, event: Event)
    requires
        node.wf(),
        node.is_saved(),
        can_happen(node, event),
        event matches Event::Deliver { envelope, .. } && envelope.message is AppendEntries
            && comes_from_a_leader(envelope.message),
    ensures
        changes_are_marked(node, bare_step(node, event).state),
        stores_nothing_itself(bare_step(node, event)),
{
    let timeout = event->Deliver_timeout;
    let req = event->envelope.message->AppendEntries_0;
    let step = node.on_append_entries(req, timeout);
    let facing = node.facing_leader(req.term, timeout);
    let following = facing.following(req.leader_id, timeout);
    law_nodes_stay_in_order(node, event);
    if facing.follows(req.term) && following.agrees_at(req.prev_log_index, req.prev_log_term) {
        lemma_merge_is_marked(
            node,
            following,
            req.prev_log_index,
            req.prev_log_term,
            req.entries,
        );
        let merged = following.merged(req.prev_log_index, req.entries);
        let commit = merged.commit_told(req.leader_commit);
        let applications = merged.applications(merged.commit_index, commit);
        assert forall|i: int| 0 <= i < step.actions.len() implies !changes_storage(
            #[trigger] step.actions[i],
        ) by {
            if i < applications.len() {
                assert(step.actions[i] == applications[i]);
            }
        }
    }
}

/// Whether none of the actions of a step, as they come from the node, changes stable storage.
spec fn stores_nothing_itself(step: Step) -> bool {
    forall|i: int| 0 <= i < step.actions.len() ==> !changes_storage(#[trigger] step.actions[i])
}

/// Whether an event installs a snapshot.
pub open spec fn installs(node: CoreView, event: Event) -> bool {
    !(event is Compact) && outcome(node, event).state.base > node.base
}

/// An event that installs no snapshot leaves only what is marked to stable storage.
proof fn lemma_is_marked(node: CoreView, event: Event)
    requires
        node.wf(),
        node.is_saved(),
        can_happen(node, event),
        !(event is Compact) && !(event is Restart),
        event matches Event::Deliver { envelope, .. } ==> comes_from_a_leader(envelope.message),
        !installs(node, event),
    ensures
        bare_step(node, event).state.wf(),
        changes_are_marked(node, bare_step(node, event).state),
        stores_nothing_itself(bare_step(node, event)),
{
    let step = bare_step(node, event);
    let from = node.last_index() + 1;
    law_nodes_stay_in_order(node, event);
    match event {
        Event::Deliver { envelope, .. } => match envelope.message {
            MessageView::AppendEntries(_) => {
                lemma_entries_are_marked(node, event);
            },
            MessageView::RequestVoteResponse(_) => {
                if step.state.log.len() > node.log.len() {
                    assert(step.state.log.take(from - node.base) =~= node.log.take(
                        from - node.base,
                    ));
                }
            },
            _ => {},
        },
        Event::Tick { .. } => {},
        _ => {
            assert(step.state.log.take(from - node.base) =~= node.log.take(from - node.base));
        },
    }
}

/// What is on stable storage when some of what an event installs is there and some is not: the new
/// term and vote and the new snapshot, with the log as it was before or with none.
pub open spec fn is_half_installed(found: Durable, before: Durable, next: CoreView) -> bool {
    &&& found.metadata == Some(
        PersistedMetadata { term: next.current_term, voted_for: next.voted_for },
    )
    &&& found.snapshot matches Some(snapshot)
    &&& snapshot.last_included_index == next.base
    &&& snapshot.last_included_term == next.log[0].term
    &&& found.log == before.log || found.log == Seq::<IndexedEntry>::empty()
}

/// Stable storage while the actions of an event are carried out that installs no snapshot.
proof fn lemma_stored_so_far(node: CoreView, step: Step, durable: Durable, k: int)
    requires
        node.wf(),
        durable.holds(node),
        step.state.wf(),
        changes_are_marked(node, step.state),
        stores_nothing_itself(step),
        0 <= k <= step.settled().actions.len(),
    ensures
        ({
            let found = durable.after_actions(step.settled().actions.take(k));
            let next = step.settled().state;
            if k >= step.state.persistence().len() {
                found.holds(next)
            } else {
                found.holds(node) || found.holds(with_metadata_of(node, next))
            }
        }),
{
    let next = step.state;
    let first = next.persistence();
    let rest = step.actions + next.saved().read_answers();
    let all = step.settled().actions;
    assert(all =~= first + rest);
    lemma_persistence_stored(node, next, durable);
    if k >= first.len() {
        let more = rest.take(k - first.len());
        assert(all.take(k) =~= first + more);
        lemma_after_actions(durable, first, more);
        lemma_nothing_stored(durable.after_actions(first), more);
    } else if k > 0 {
        reveal_with_fuel(Durable::after_actions, 2);
        assert(all.take(1).drop_last() =~= Seq::<ActionView>::empty());
        assert(all.take(1)[0] == first[0]);
    }
}

/// Stable storage while a snapshot is installed, from action to action.
proof fn lemma_installed_so_far(node: CoreView, event: Event, durable: Durable, k: int)
    requires
        node.wf(),
        can_happen(node, event),
        durable.holds(node),
        event matches Event::Deliver { envelope, .. } && envelope.message is InstallSnapshot
            && comes_from_a_leader(envelope.message),
        installs(node, event),
        0 <= k <= outcome(node, event).actions.len(),
    ensures
        ({
            let found = durable.after_actions(outcome(node, event).actions.take(k));
            let actions = outcome(node, event).actions;
            let next = outcome(node, event).state;
            let at = bare_step(node, event).state.persistence().len();
            &&& actions.len() > at
            &&& actions[at as int] is InstallSnapshot
            &&& actions[at as int]->InstallSnapshot_last_included_index == next.base
            &&& actions[at as int]->InstallSnapshot_last_included_term == next.log[0].term
            &&& forall|i: int|
                0 <= i < actions.len() && i != at ==> !(#[trigger] actions[i] is InstallSnapshot)
            &&& k == 0 ==> found.holds(node)
            &&& k <= at ==> found.holds(node) || found.holds(with_metadata_of(node, next))
            &&& k == at ==> found.metadata == Some(
                PersistedMetadata { term: next.current_term, voted_for: next.voted_for },
            ) && found.log == durable.log
            &&& k > at ==> found.holds(next) || (is_half_installed(found, durable, next)
                && changes_storage(actions[k]))
            &&& k == actions.len() ==> found.holds(next)
        }),
{
    let timeout = event->Deliver_timeout;
    let req = event->envelope.message->InstallSnapshot_0;
    let step = bare_step(node, event);
    let facing = node.facing_leader(req.term, timeout);
    let following = facing.following(req.leader_id, timeout);
    let next = step.state;
    let first = next.persistence();
    let last = next.saved().read_answers();
    let installation = following.installation(req);
    let kept = following.entries_after(req.last_included_index, req.last_included_term);
    let all = outcome(node, event).actions;
    let answer = following.snapshot_answer(req.leader_id, req.last_included_index);
    let rest = seq![answer] + last;
    law_nodes_stay_in_order(node, event);
    assert(facing.follows(req.term) && req.last_included_index > following.commit_index);
    assert(all =~= first + installation + rest);
    reveal_with_fuel(Durable::after_actions, 3);
    let stored = durable.after_actions(first);
    if next.unsaved_metadata {
        assert(first.drop_last() =~= Seq::<ActionView>::empty());
    }
    let at = first.len() as int;
    assert(all[at] == installation[0]);
    assert forall|i: int| 0 <= i < all.len() && i != at implies !(
    #[trigger] all[i] is InstallSnapshot) by {
        if i < at {
            assert(all[i] == first[i]);
        } else if i < at + installation.len() {
            assert(all[i] == installation[i - at]);
        } else {
            assert(all[i] == rest[i - at - installation.len()]);
        }
    }
    assert(next.log.skip(1) =~= kept);
    let cleared = stored.after_action(installation[0]);
    let installed = stored.after_actions(installation);
    if kept.len() == 0 {
        assert(installation.drop_last() =~= Seq::<ActionView>::empty());
    } else {
        assert(installation.drop_last().drop_last() =~= Seq::<ActionView>::empty());
        assert(installation.drop_last()[0] == installation[0]);
    }
    assert(installed.log =~= indexed(
        AddendumView { start_index: (next.base + 1) as u64, entries: kept },
    ));
    if k <= at {
        assert(all.take(k) =~= first.take(k));
        if k == at {
            assert(first.take(k) =~= first);
        }
    } else if k == at + 1 {
        assert(all.take(k) =~= first + installation.take(1));
        lemma_after_actions(durable, first, installation.take(1));
        assert(installation.take(1).drop_last() =~= Seq::<ActionView>::empty());
        if kept.len() > 0 {
            assert(all[k] == installation[1]);
        } else {
            assert(installation.take(1) =~= installation);
        }
    } else {
        let more = rest.take(k - at - installation.len());
        assert(all.take(k) =~= first + installation + more);
        lemma_after_actions(durable, first + installation, more);
        lemma_after_actions(durable, first, installation);
        lemma_nothing_stored(installed, more);
    }
}

/// Durability: when the actions of an event have been carried out, stable storage holds the term,
/// the vote and the log of the node as they are after the event, if it held them before.
pub proof fn law_storage_keeps_up(node: CoreView, event: Event, durable: Durable)
    requires
        node.wf(),
        can_happen(node, event),
        !(event is Compact) && !(event is Restart),
        event matches Event::Deliver { envelope, .. } ==> comes_from_a_leader(envelope.message),
        durable.holds(node),
    ensures
        durable.after_actions(outcome(node, event).actions).holds(outcome(node, event).state),
{
    let actions = outcome(node, event).actions;
    assert(actions.take(actions.len() as int) =~= actions);
    if installs(node, event) {
        lemma_installed_so_far(node, event, durable, actions.len() as int);
    } else {
        lemma_is_marked(node, event);
        lemma_stored_so_far(node, bare_step(node, event), durable, actions.len() as int);
    }
}

/// Stable storage while the effects of an action are carried out: but for a snapshot that is
/// installed, an action writes once.
proof fn lemma_effects_so_far(driver: DriverView, action: ActionView, durable: Durable, j: int)
    requires
        0 <= j <= driver.on_action(action).1.len(),
    ensures
        ({
            let found = durable.after_all(driver.on_action(action).1.take(j));
            ||| found == durable
            ||| found == durable.after_action(action)
            ||| {
                &&& action matches ActionView::InstallSnapshot {
                    last_included_index,
                    last_included_term,
                    data,
                }
                &&& found == durable.after(
                    EffectView::StoreSnapshot(
                        SnapshotView { last_included_index, last_included_term, data },
                    ),
                )
            }
        }),
{
    reveal_with_fuel(Durable::after_all, 4);
    let effects = driver.on_action(action).1;
    let so_far = effects.take(j);
    assert(effects.len() <= 3);
    if j == 1 {
        assert(so_far.drop_last() =~= Seq::<EffectView>::empty());
    } else if j == 2 {
        assert(so_far.drop_last().drop_last() =~= Seq::<EffectView>::empty());
    } else if j == 3 {
        assert(so_far.drop_last().drop_last().drop_last() =~= Seq::<EffectView>::empty());
    }
}

/// A crash in the middle of an event finds on stable storage the node as it was before the event,
/// that node with its new term and vote, or the node as it is after the event. The one exception is
/// a snapshot from a leader that is installed: between its first write and its last, the new
/// snapshot is there with the log of before or with none. Once an action is reached that does not
/// change stable storage, so before any message leaves and before any entry is applied, all that
/// the event has changed is there.
pub proof fn law_crashes_find_what_was_stored(
    node: CoreView,
    event: Event,
    durable: Durable,
    driver: DriverView,
    k: int,
    j: int,
)
    requires
        node.wf(),
        can_happen(node, event),
        !(event is Compact) && !(event is Restart),
        event matches Event::Deliver { envelope, .. } ==> comes_from_a_leader(envelope.message),
        durable.holds(node),
        0 <= k < outcome(node, event).actions.len(),
        0 <= j <= driver.on_action(outcome(node, event).actions[k]).1.len(),
    ensures
        ({
            let actions = outcome(node, event).actions;
            let next = outcome(node, event).state;
            let found = durable.after_actions(actions.take(k)).after_all(
                driver.on_action(actions[k]).1.take(j),
            );
            &&& {
                ||| found.holds(node)
                ||| found.holds(with_metadata_of(node, next))
                ||| found.holds(next)
                ||| installs(node, event) && is_half_installed(found, durable, next)
            }
            &&& !changes_storage(actions[k]) ==> found.holds(next)
        }),
{
    let actions = outcome(node, event).actions;
    let before = durable.after_actions(actions.take(k));
    lemma_effects_so_far(driver, actions[k], before, j);
    assert(actions.take(k + 1).drop_last() =~= actions.take(k));
    assert(durable.after_actions(actions.take(k + 1)) == before.after_action(actions[k]));
    if installs(node, event) {
        lemma_installed_so_far(node, event, durable, k);
        lemma_installed_so_far(node, event, durable, k + 1);
        let at = bare_step(node, event).state.persistence().len();
        if k < at {
            assert(changes_storage(actions[k])) by {
                assert(actions[k] == bare_step(node, event).state.persistence()[k]);
            }
        }
    } else {
        let step = bare_step(node, event);
        lemma_is_marked(node, event);
        lemma_stored_so_far(node, step, durable, k);
        lemma_stored_so_far(node, step, durable, k + 1);
        if k < step.state.persistence().len() {
            assert(actions[k] == step.state.persistence()[k]);
        } else {
            let rest = step.actions + step.state.saved().read_answers();
            assert(actions[k] == rest[k - step.state.persistence().len()]);
        }
    }
}

/// A node that starts from a snapshot which was only half installed has the new term and vote and
/// stands where the snapshot ends. After that it has no entries, or it takes those that it had
/// before for the ones after the snapshot.
pub proof fn law_half_installed_snapshots_start_a_node(
    found: Durable,
    before: Durable,
    node: CoreView,
    next: CoreView,
    fresh: CoreView,
)
    requires
        before.holds(node),
        is_half_installed(found, before, next),
    ensures
        exists|entries: Seq<EntryView>|
            {
                &&& entries == node.log.skip(1) || entries == Seq::<EntryView>::empty()
                &&& started(fresh, found.snapshot, found.metadata, Some(plain(found.log)))
                    == #[trigger] fresh.restored(
                    next.current_term,
                    next.voted_for,
                    entries,
                    next.base,
                    next.log[0].term,
                )
            },
{
    let entries = plain(found.log);
    assert(plain(before.log) =~= node.log.skip(1));
    assert(found.log.len() == 0 ==> entries =~= Seq::<EntryView>::empty());
    assert(started(fresh, found.snapshot, found.metadata, Some(entries)) == fresh.restored(
        next.current_term,
        next.voted_for,
        entries,
        next.base,
        next.log[0].term,
    ));
}

/// A snapshot of the application takes the place of entries on stable storage as it does in the
/// node, and the entries after it stay. The index and the term of the snapshot are those of the
/// last entry that had been applied when the state was taken.
pub proof fn law_snapshots_keep_the_rest(
    driver: DriverView,
    index: u64,
    data: Seq<u8>,
    durable: Durable,
)
    requires
        driver.core.wf(),
        driver.core.can_compact(index),
        1 <= index,
        durable.holds(driver.core),
    ensures
        ({
            let after = driver.on_snapshot(index, data);
            let stored = durable.after_all(after.1);
            &&& stored.holds(after.0.core)
            &&& driver.core.base < index ==> stored.log_exists
            &&& stored.snapshot == Some(
                SnapshotView {
                    last_included_index: index,
                    last_included_term: driver.core.term_at(index as int),
                    data,
                },
            )
            &&& forall|i: int|
                index < i <= driver.core.last_index() ==> after.0.core.log[i - index]
                    == #[trigger] driver.core.log[i - driver.core.base]
        }),
{
    reveal_with_fuel(Durable::after_all, 4);
    let node = driver.core;
    let after = driver.on_snapshot(index, data);
    let effects = after.1;
    let next = after.0.core;
    let rest = node.log.skip(index - node.base + 1);
    assert(next.log.skip(1) =~= rest);
    let whole = AddendumView { start_index: (index + 1) as u64, entries: rest };
    if index < node.last_index() {
        assert(effects.len() == 3);
        assert(effects.drop_last().drop_last().drop_last() =~= Seq::<EffectView>::empty());
        assert(Seq::<IndexedEntry>::empty() + indexed(whole) =~= indexed(whole));
        let compacted = node.compacted(
            SnapshotMetadata {
                last_applied: index,
                last_applied_term: node.term_at(index as int),
            },
        );
        assert(compacted.log.skip(1) =~= rest);
        assert(effects[2] == EffectView::StoreLogEntries(whole));
    } else {
        assert(effects.len() == 2);
        assert(effects.drop_last().drop_last() =~= Seq::<EffectView>::empty());
        assert(indexed(whole) =~= Seq::<IndexedEntry>::empty());
    }
    assert forall|i: int| index < i <= node.last_index() implies next.log[i - index]
        == #[trigger] node.log[i - node.base] by {
        assert(rest[i - index - 1] == node.log[i - node.base]);
    }
}

/// A crash while a node stores a snapshot of its own finds the node as it was before or as it is
/// after, or the new snapshot with the log of before or with none.
pub proof fn law_crashes_find_what_a_snapshot_has_stored(
    driver: DriverView,
    index: u64,
    data: Seq<u8>,
    durable: Durable,
    j: int,
)
    requires
        driver.core.wf(),
        driver.core.can_compact(index),
        1 <= index,
        durable.holds(driver.core),
        0 <= j <= driver.on_snapshot(index, data).1.len(),
    ensures
        ({
            let (after, effects) = driver.on_snapshot(index, data);
            let found = durable.after_all(effects.take(j));
            ||| found.holds(driver.core)
            ||| found.holds(after.core)
            ||| is_half_installed(found, durable, after.core)
        }),
{
    reveal_with_fuel(Durable::after_all, 4);
    let (after, effects) = driver.on_snapshot(index, data);
    let so_far = effects.take(j);
    if j == effects.len() {
        assert(so_far =~= effects);
        law_snapshots_keep_the_rest(driver, index, data, durable);
    } else if j == 1 {
        assert(so_far.drop_last() =~= Seq::<EffectView>::empty());
    } else if j == 2 {
        assert(so_far.drop_last().drop_last() =~= Seq::<EffectView>::empty());
    }
}

/// A node that starts from what stable storage holds is the node that it was, but for what it may
/// forget. Where there is no log, the node starts without one.
pub proof fn law_restart_restores_the_node(
    durable: Durable,
    node: CoreView,
    nodes: Seq<u64>,
    timeout: u64,
    entries: Option<Seq<EntryView>>,
)
    requires
        node.wf(),
        durable.holds(node),
        node.peers == other_nodes(node.id, nodes),
        entries == if durable.log_exists {
            Some(plain(durable.log))
        } else {
            None
        },
        durable.snapshot is Some ==> durable.log_exists,
    ensures
        started(
            CoreView::fresh(
                node.id,
                nodes,
                node.heartbeat_interval,
                node.timeout_start,
                node.timeout_end,
                timeout,
            ),
            durable.snapshot,
            durable.metadata,
            entries,
        ) == restarted(node, timeout),
{
    assert(plain(durable.log) =~= node.log.skip(1));
    assert(seq![placeholder(node.log[0].term)] + node.log.skip(1) =~= node.log);
    let fresh = CoreView::fresh(
        node.id,
        nodes,
        node.heartbeat_interval,
        node.timeout_start,
        node.timeout_end,
        timeout,
    );
    assert(fresh.log =~= seq![placeholder(0)]);
    assert(node.log.len() == 1 ==> node.log =~= seq![placeholder(node.log[0].term)]);
    let back = started(
        fresh,
        durable.snapshot,
        durable.metadata,
        entries,
    );
    assert(entries is None ==> node.log.skip(1) =~= Seq::<EntryView>::empty());
    assert(back =~= restarted(node, timeout));
}

/// A node can be started from what a storage gives back, and is then the node that the storage has
/// kept up with. A storage that was given a snapshot and no entry, ever, is left out.
pub proof fn law_storage_starts_the_node<S: Storage>(
    storage: S,
    node: CoreView,
    nodes: Seq<u64>,
    timeout: u64,
    snapshot: Option<Snapshot>,
    metadata: Option<PersistedMetadata>,
    entries: Option<Vec<LogEntry>>,
)
    requires
        storage.wf(),
        node.wf(),
        kept_by(storage).holds(node),
        node.peers == other_nodes(node.id, nodes),
        storage.stored_snapshot() is Some ==> storage.log_exists(),
        // what the storage gives back
        optional_snapshot(snapshot) == storage.stored_snapshot(),
        metadata == storage.stored_metadata(),
        entries is None <==> !storage.log_exists(),
        entries matches Some(list) ==> entries_view(list@) == plain(storage.stored_log()),
    ensures
        // what the driver asks for
        snapshot is Some ==> metadata is Some && entries is Some,
        snapshot matches Some(s) ==> s.last_included_index + 1 + entries->0.len() <= u64::MAX,
        entries matches Some(list) ==> 1 + list.len() <= u64::MAX,
        // what it starts with
        started(
            CoreView::fresh(
                node.id,
                nodes,
                node.heartbeat_interval,
                node.timeout_start,
                node.timeout_end,
                timeout,
            ),
            optional_snapshot(snapshot),
            metadata,
            optional_entries(entries),
        ) == restarted(node, timeout),
{
    let durable = kept_by(storage);
    if let Some(list) = entries {
        assert(entries_view(list@).len() == list.len());
        assert(plain(durable.log).len() == node.log.len() - 1);
    }
    law_restart_restores_the_node(durable, node, nodes, timeout, optional_entries(entries));
}

} // verus!
