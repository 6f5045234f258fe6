//! The clients of a node: who waits for what, and who is told what, over a run of the event loop.
//! Between two events the loop carries out the actions of the first one, in order.

use crate::cluster::{can_happen, may_draw, outcome, Envelope, Event};
use crate::driver::{DriverView, EffectView};
use crate::laws::{
    application_of, law_entries_are_applied_in_order, law_leaders_only_append,
    law_nodes_stay_in_order,
};
use crate::model::CoreView;
use crate::reads::lemma_answered;
use crate::types::{ActionView, EntryView, MessageView, RaftState};
use vstd::prelude::*;

verus! {

/// A proposal that a leader has taken: the client's ticket and the entry that was stored for it.
pub struct Proposed {
    pub ticket: u64,
    pub entry: EntryView,
}

/// A read that a leader has taken: the client's ticket and the leader's term.
pub struct Asked {
    pub ticket: u64,
    pub term: u64,
}

/// The event loop at some moment of a run.
#[verifier::ext_equal]
pub struct Loop {
    pub driver: DriverView,
    /// The actions of the last event that are not carried out yet.
    pub todo: Seq<ActionView>,
    /// The last proposal that was taken for each index.
    pub proposed: Map<u64, Proposed>,
    /// The last read that was taken for each index.
    pub asked: Map<u64, Asked>,
}

/// What the event loop does next.
pub enum Moment {
    Tick { timeout: u64 },
    Propose { command: Seq<u8>, ticket: u64 },
    Read { ticket: u64 },
    Receive { message: MessageView, timeout: u64 },
    /// The first action that is left is carried out.
    CarryOut,
    /// The application hands over a snapshot of its state.
    Snapshot { index: u64, data: Seq<u8> },
}

/// Whether the loop can do something: it takes the next event when all actions of the last one are
/// carried out. What a node that does not lead is asked for it refuses, and nothing changes.
pub open spec fn can_do(now: Loop, moment: Moment) -> bool {
    let node = now.driver.core;
    match moment {
        Moment::Tick { timeout } => {
            &&& now.todo.len() == 0
            &&& node.can_tick()
            &&& may_draw(node, timeout)
        },
        Moment::Propose { .. } => {
            &&& now.todo.len() == 0
            &&& node.state == RaftState::Leader
            &&& node.can_propose()
        },
        Moment::Read { .. } => {
            &&& now.todo.len() == 0
            &&& node.state == RaftState::Leader
            &&& node.has_room()
        },
        Moment::Receive { message, timeout } => {
            &&& now.todo.len() == 0
            &&& node.can_take(message)
            &&& may_draw(node, timeout)
        },
        Moment::CarryOut => {
            &&& now.todo.len() > 0
            &&& now.driver.num_entries < usize::MAX
        },
        Moment::Snapshot { index, .. } => node.can_compact(index),
    }
}

/// The loop afterwards.
#[verifier::opaque]
pub open spec fn done(now: Loop, moment: Moment) -> Loop {
    let node = now.driver.core;
    let next_index = (node.last_index() + 1) as u64;
    match moment {
        Moment::Tick { timeout } => {
            let (driver, todo) = now.driver.on_tick(timeout);
            Loop { driver, todo, ..now }
        },
        Moment::Propose { command, ticket } => {
            let (driver, todo) = now.driver.on_propose(command, ticket);
            let entry = EntryView { term: node.current_term, command };
            let proposed = now.proposed.insert(next_index, Proposed { ticket, entry });
            Loop { driver, todo, proposed, ..now }
        },
        Moment::Read { ticket } => {
            let (driver, todo) = now.driver.on_read_request(ticket);
            let asked = now.asked.insert(next_index, Asked { ticket, term: node.current_term });
            Loop { driver, todo, asked, ..now }
        },
        Moment::Receive { message, timeout } => {
            let (driver, todo) = now.driver.on_message(message, timeout);
            Loop { driver, todo, ..now }
        },
        Moment::CarryOut => Loop {
            driver: now.driver.on_action(now.todo[0]).0,
            todo: now.todo.skip(1),
            ..now
        },
        Moment::Snapshot { index, data } => Loop {
            driver: now.driver.on_snapshot(index, data).0,
            ..now
        },
    }
}

/// The effects of an action that is carried out.
pub open spec fn carried_out(now: Loop) -> Seq<EffectView> {
    now.driver.on_action(now.todo[0]).1
}

/// The loop after the first `n` moments.
pub open spec fn loop_at(start: Loop, moments: Seq<Moment>, n: nat) -> Loop
    decreases n,
{
    if n == 0 {
        start
    } else {
        done(loop_at(start, moments, (n - 1) as nat), moments[n - 1])
    }
}

/// A run: a node that has just started, for which no client waits yet, and what its event loop does
/// from there.
pub open spec fn is_loop_run(start: Loop, moments: Seq<Moment>) -> bool {
    &&& start.driver.wf()
    &&& start.driver.proposals == Map::<u64, u64>::empty()
    &&& start.driver.reads == Map::<u64, u64>::empty()
    &&& start.todo.len() == 0
    &&& forall|n: int|
        0 <= n < moments.len() ==> can_do(
            loop_at(start, moments, n as nat),
            #[trigger] moments[n],
        )
}

/// Whether no message has taken an entry away that was applied. In a cluster none ever does: by
/// [`crate::replication::law_committed_entries_agree`] a node holds what it has committed.
pub open spec fn holds_what_it_applied(start: Loop, moments: Seq<Moment>, n: nat) -> bool {
    forall|m: nat|
        m < n ==> (#[trigger] loop_at(start, moments, m)).driver.core.last_applied <= loop_at(
            start,
            moments,
            m,
        ).driver.core.last_index()
}

/// Whether a ticket waits, at a leader, for the entry that was stored for it, which is still to be
/// applied.
pub open spec fn waits_for_its_entry(now: Loop, index: u64) -> bool {
    let node = now.driver.core;
    &&& node.state == RaftState::Leader
    &&& now.proposed.dom().contains(index)
    &&& now.proposed[index].ticket == now.driver.proposals[index]
    &&& now.proposed[index].entry.term == node.current_term
    &&& node.last_applied < index <= node.last_index()
    &&& node.log[index - node.base] == now.proposed[index].entry
}

/// Whether a ticket stands, at a leader, for the entry that was stored for it, as far as no
/// snapshot has taken its place.
spec fn stands_for_its_entry(now: Loop, index: u64) -> bool {
    let node = now.driver.core;
    &&& node.state == RaftState::Leader
    &&& now.proposed.dom().contains(index)
    &&& now.proposed[index].ticket == now.driver.proposals[index]
    &&& now.proposed[index].entry.term == node.current_term
    &&& index <= node.last_index()
    &&& node.base < index ==> node.log[index - node.base] == now.proposed[index].entry
}

/// Whether a read waits at the leader that took it, in the same term.
pub open spec fn waits_in_its_term(now: Loop, index: u64) -> bool {
    &&& now.driver.core.state == RaftState::Leader
    &&& now.asked.dom().contains(index)
    &&& now.asked[index] == (Asked {
        ticket: now.driver.reads[index],
        term: now.driver.core.current_term,
    })
}

/// Whether the actions that are left answer no client wrongly.
spec fn answers_rightly(now: Loop, action: ActionView) -> bool {
    let node = now.driver.core;
    match action {
        ActionView::ApplyToStateMachine { index, command } => {
            &&& index <= node.commit_index
            &&& now.driver.proposals.dom().contains(index) ==> command
                == now.proposed[index].entry.command
        },
        ActionView::ReadBarrierReady { id } => {
            &&& node.state == RaftState::Leader
            &&& id <= node.commit_index
        },
        _ => true,
    }
}

/// What holds at every moment of a run.
#[verifier::opaque]
spec fn keeps_its_word(now: Loop) -> bool {
    &&& now.driver.wf()
    &&& forall|index: u64| #[trigger]
        now.driver.proposals.dom().contains(index) ==> stands_for_its_entry(now, index)
    &&& forall|index: u64| #[trigger]
        now.driver.reads.dom().contains(index) ==> waits_in_its_term(now, index)
    &&& forall|k: int|
        0 <= k < now.todo.len() ==> answers_rightly(now, #[trigger] now.todo[k])
}

/// Whether every entry that is applied already, and that somebody waits for still, is about to be
/// carried out.
#[verifier::opaque]
spec fn passes_nobody_over(now: Loop) -> bool {
    forall|index: u64| #[trigger]
        now.driver.proposals.dom().contains(index) && index <= now.driver.core.last_applied
            ==> is_next(now.todo, index)
}

/// Whether one of the actions applies the entry at `index`.
spec fn is_next(todo: Seq<ActionView>, index: u64) -> bool {
    exists|k: int|
        0 <= k < todo.len() && (#[trigger] todo[k] matches ActionView::ApplyToStateMachine {
            index: applied,
            ..
        } && applied == index)
}

/// What a leader that goes on leading commits, it applies next.
proof fn lemma_is_next(node: CoreView, event: Event, index: u64)
    requires
        node.wf(),
        can_happen(node, event),
        !(event is Compact) && !(event is Restart),
        node.state == RaftState::Leader,
        outcome(node, event).state.state == RaftState::Leader,
        node.last_applied < index <= outcome(node, event).state.last_applied,
    ensures
        is_next(outcome(node, event).actions, index),
{
    law_leaders_only_append(node, event);
    law_entries_are_applied_in_order(node, event);
    let step = outcome(node, event);
    let i = choose|i: int|
        0 <= i < step.actions.len() && #[trigger] step.actions[i] == application_of(
            step.state,
            index,
        );
    assert(step.actions[i] == application_of(step.state, index));
}

/// What an event leaves to do answers no client wrongly, if every proposal that waits is for the
/// entry of the log.
proof fn lemma_answers_rightly(node: CoreView, event: Event, next: Loop)
    requires
        node.wf(),
        can_happen(node, event),
        !(event is Compact) && !(event is Restart),
        next.driver.core == outcome(node, event).state,
        next.todo == outcome(node, event).actions,
        forall|index: u64| #[trigger]
            next.driver.proposals.dom().contains(index) ==> {
                &&& next.driver.core.base == node.base
                &&& stands_for_its_entry(next, index)
            },
    ensures
        forall|k: int| 0 <= k < next.todo.len() ==> answers_rightly(next, #[trigger] next.todo[k]),
{
    law_nodes_stay_in_order(node, event);
    law_entries_are_applied_in_order(node, event);
    assert forall|k: int| 0 <= k < next.todo.len() implies answers_rightly(
        next,
        #[trigger] next.todo[k],
    ) by {
        let action = outcome(node, event).actions[k];
        match action {
            ActionView::ReadBarrierReady { id } => {
                assert(outcome(node, event).actions.contains(action));
                lemma_answered(node, event, id);
            },
            _ => {},
        }
    }
}

/// A leader that goes on leading does so in the same term.
proof fn lemma_leads_on(node: CoreView, event: Event)
    requires
        node.wf(),
        can_happen(node, event),
        !(event is Compact) && !(event is Restart),
        node.state == RaftState::Leader,
        outcome(node, event).state.state == RaftState::Leader,
    ensures
        outcome(node, event).state.current_term == node.current_term,
{
}

/// Whether a proposal that waits after an event waited before it, or came with it.
spec fn is_carried_over(now: Loop, next: Loop, index: u64) -> bool {
    let node = next.driver.core;
    &&& now.driver.core.state == RaftState::Leader
    &&& node.state == RaftState::Leader
    &&& next.proposed.dom().contains(index)
    &&& next.proposed[index].ticket == next.driver.proposals[index]
    &&& {
        ||| {
            &&& now.driver.proposals.dom().contains(index)
            &&& next.driver.proposals[index] == now.driver.proposals[index]
            &&& next.proposed[index] == now.proposed[index]
        }
        ||| {
            &&& now.driver.core.last_index() < index
            &&& stands_for_its_entry(next, index)
        }
    }
}

/// An event that adds at most the proposal and the read that come with it keeps what was promised.
proof fn lemma_event_keeps(now: Loop, event: Event, next: Loop)
    requires
        keeps_its_word(now),
        now.todo.len() == 0,
        can_happen(now.driver.core, event),
        !(event is Compact) && !(event is Restart),
        next.driver.core == outcome(now.driver.core, event).state,
        next.todo == outcome(now.driver.core, event).actions,
        next.driver.proposals.dom().finite(),
        next.driver.reads.dom().finite(),
        forall|index: u64| #[trigger]
            next.driver.proposals.dom().contains(index) ==> is_carried_over(now, next, index),
        forall|index: u64| #[trigger]
            next.driver.reads.dom().contains(index) ==> {
                ||| waits_in_its_term(next, index)
                ||| {
                    &&& now.driver.core.state == RaftState::Leader
                    &&& next.driver.core.state == RaftState::Leader
                    &&& now.driver.reads.dom().contains(index)
                    &&& next.driver.reads[index] == now.driver.reads[index]
                    &&& next.asked.dom().contains(index)
                    &&& next.asked[index] == now.asked[index]
                }
            },
    ensures
        keeps_its_word(next),
{
    reveal(keeps_its_word);
    let node = now.driver.core;
    let after = next.driver.core;
    law_nodes_stay_in_order(node, event);
    if node.state == RaftState::Leader && after.state == RaftState::Leader {
        lemma_leads_on(node, event);
        law_leaders_only_append(node, event);
    }
    assert forall|index: u64| #[trigger] next.driver.proposals.dom().contains(index) implies {
        &&& after.base == node.base
        &&& stands_for_its_entry(next, index)
    } by {
        assert(is_carried_over(now, next, index));
        if now.driver.proposals.dom().contains(index) {
            assert(stands_for_its_entry(now, index));
        }
    }
    assert forall|index: u64| #[trigger]
        next.driver.reads.dom().contains(index) implies waits_in_its_term(next, index) by {
        if now.driver.reads.dom().contains(index) {
            assert(waits_in_its_term(now, index));
        }
    }
    lemma_answers_rightly(node, event, next);
}

/// An action that is carried out answers those who wait for it and nobody else.
proof fn lemma_carrying_out_keeps(now: Loop)
    requires
        keeps_its_word(now),
        can_do(now, Moment::CarryOut),
    ensures
        keeps_its_word(done(now, Moment::CarryOut)),
{
    reveal(keeps_its_word);
    reveal(done);
    let next = done(now, Moment::CarryOut);
    assert forall|index: u64| #[trigger]
        next.driver.proposals.dom().contains(index) implies stands_for_its_entry(next, index) by {
        assert(now.driver.proposals.dom().contains(index));
    }
    assert forall|index: u64| #[trigger]
        next.driver.reads.dom().contains(index) implies waits_in_its_term(next, index) by {
        assert(now.driver.reads.dom().contains(index));
    }
    assert forall|k: int| 0 <= k < next.todo.len() implies answers_rightly(
        next,
        #[trigger] next.todo[k],
    ) by {
        assert(next.todo[k] == now.todo[k + 1]);
    }
}

/// A snapshot takes no entry away that somebody waits for.
proof fn lemma_snapshot_keeps(now: Loop, index: u64, data: Seq<u8>)
    requires
        keeps_its_word(now),
        now.driver.core.can_compact(index),
    ensures
        keeps_its_word(done(now, Moment::Snapshot { index, data })),
{
    reveal(keeps_its_word);
    reveal(done);
    let next = done(now, Moment::Snapshot { index, data });
    law_nodes_stay_in_order(now.driver.core, Event::Compact { node: now.driver.core.id, index });
    assert forall|other: u64| #[trigger]
        next.driver.proposals.dom().contains(other) implies stands_for_its_entry(next, other) by {
        assert(now.driver.proposals.dom().contains(other));
        if index < other {
            assert(next.driver.core.log[other - index] == now.driver.core.log[other
                - now.driver.core.base]);
        }
    }
    assert forall|other: u64| #[trigger]
        next.driver.reads.dom().contains(other) implies waits_in_its_term(next, other) by {
        assert(now.driver.reads.dom().contains(other));
    }
    assert forall|k: int| 0 <= k < next.todo.len() implies answers_rightly(
        next,
        #[trigger] next.todo[k],
    ) by {
        assert(answers_rightly(now, now.todo[k]));
    }
}

/// Whatever the loop does keeps what was promised.
proof fn lemma_moment_keeps(now: Loop, moment: Moment)
    requires
        keeps_its_word(now),
        can_do(now, moment),
    ensures
        keeps_its_word(done(now, moment)),
{
    reveal(keeps_its_word);
    reveal(done);
    let node = now.driver.core;
    let next = done(now, moment);
    assert forall|index: u64| #[trigger]
        now.driver.proposals.dom().contains(index) implies stands_for_its_entry(now, index) by {}
    assert forall|index: u64| #[trigger]
        now.driver.reads.dom().contains(index) implies now.asked.dom().contains(index)
        && now.driver.core.state == RaftState::Leader by {
        assert(waits_in_its_term(now, index));
    }
    match moment {
        Moment::Tick { timeout } => {
            lemma_event_keeps(now, Event::Tick { node: node.id, timeout }, next);
        },
        Moment::Propose { command, .. } => {
            assert(node.log.push(EntryView { term: node.current_term, command }).last()
                == next.driver.core.log[next.driver.core.last_index() - next.driver.core.base]);
            lemma_event_keeps(now, Event::Propose { node: node.id, command }, next);
        },
        Moment::Read { .. } => {
            lemma_event_keeps(now, Event::Read { node: node.id }, next);
        },
        Moment::Receive { message, timeout } => {
            let envelope = Envelope { to: node.id, message };
            lemma_event_keeps(now, Event::Deliver { envelope, timeout }, next);
        },
        Moment::CarryOut => {
            lemma_carrying_out_keeps(now);
        },
        Moment::Snapshot { index, data } => {
            lemma_snapshot_keeps(now, index, data);
        },
    }
}

proof fn lemma_run_keeps(start: Loop, moments: Seq<Moment>, n: nat)
    requires
        is_loop_run(start, moments),
        n <= moments.len(),
    ensures
        keeps_its_word(loop_at(start, moments, n)),
    decreases n,
{
    if n == 0 {
        reveal(keeps_its_word);
    } else {
        lemma_run_keeps(start, moments, (n - 1) as nat);
        assert(can_do(loop_at(start, moments, (n - 1) as nat), moments[n - 1]));
        lemma_moment_keeps(loop_at(start, moments, (n - 1) as nat), moments[n - 1]);
    }
}

/// An event passes nobody over, if all that was applied before it is in the log.
proof fn lemma_event_passes_nobody_over(now: Loop, event: Event, next: Loop)
    requires
        keeps_its_word(now),
        passes_nobody_over(now),
        now.driver.core.last_applied <= now.driver.core.last_index(),
        now.todo.len() == 0,
        can_happen(now.driver.core, event),
        !(event is Compact) && !(event is Restart),
        next.driver.core == outcome(now.driver.core, event).state,
        next.todo == outcome(now.driver.core, event).actions,
        forall|index: u64| #[trigger]
            next.driver.proposals.dom().contains(index) ==> is_carried_over(now, next, index),
    ensures
        passes_nobody_over(next),
{
    reveal(keeps_its_word);
    reveal(passes_nobody_over);
    assert forall|index: u64| #[trigger]
        next.driver.proposals.dom().contains(index) && index
            <= next.driver.core.last_applied implies is_next(next.todo, index) by {
        assert(is_carried_over(now, next, index));
        if index <= now.driver.core.last_applied {
            assert(is_next(now.todo, index));
        } else {
            lemma_is_next(now.driver.core, event, index);
        }
    }
}

/// Whatever the loop does passes nobody over, if all that was applied before it is in the log.
proof fn lemma_moment_passes_nobody_over(now: Loop, moment: Moment)
    requires
        keeps_its_word(now),
        passes_nobody_over(now),
        now.driver.core.last_applied <= now.driver.core.last_index(),
        can_do(now, moment),
    ensures
        passes_nobody_over(done(now, moment)),
{
    reveal(keeps_its_word);
    reveal(done);
    let node = now.driver.core;
    let next = done(now, moment);
    assert forall|index: u64| #[trigger]
        now.driver.proposals.dom().contains(index) implies stands_for_its_entry(now, index) by {}
    match moment {
        Moment::Tick { timeout } => {
            lemma_event_passes_nobody_over(now, Event::Tick { node: node.id, timeout }, next);
        },
        Moment::Propose { command, .. } => {
            lemma_event_passes_nobody_over(now, Event::Propose { node: node.id, command }, next);
        },
        Moment::Read { .. } => {
            lemma_event_passes_nobody_over(now, Event::Read { node: node.id }, next);
        },
        Moment::Receive { message, timeout } => {
            let envelope = Envelope { to: node.id, message };
            lemma_event_passes_nobody_over(now, Event::Deliver { envelope, timeout }, next);
        },
        Moment::CarryOut => {
            reveal(passes_nobody_over);
            assert forall|index: u64| #[trigger]
                next.driver.proposals.dom().contains(index) && index
                    <= next.driver.core.last_applied implies is_next(next.todo, index) by {
                assert(now.driver.proposals.dom().contains(index));
                let k = choose|k: int|
                    0 <= k < now.todo.len() && (#[trigger] now.todo[k]
                        matches ActionView::ApplyToStateMachine { index: applied, .. }
                        && applied == index);
                assert(next.todo[k - 1] == now.todo[k]);
            }
        },
        Moment::Snapshot { .. } => {
            reveal(passes_nobody_over);
        },
    }
}

proof fn lemma_run_passes_nobody_over(start: Loop, moments: Seq<Moment>, n: nat)
    requires
        is_loop_run(start, moments),
        n <= moments.len(),
        holds_what_it_applied(start, moments, n),
    ensures
        passes_nobody_over(loop_at(start, moments, n)),
    decreases n,
{
    if n == 0 {
        reveal(passes_nobody_over);
    } else {
        let before = loop_at(start, moments, (n - 1) as nat);
        lemma_run_passes_nobody_over(start, moments, (n - 1) as nat);
        lemma_run_keeps(start, moments, (n - 1) as nat);
        assert(can_do(before, moments[n - 1]));
        assert(before.driver.core.last_applied <= before.driver.core.last_index());
        lemma_moment_passes_nobody_over(before, moments[n - 1]);
    }
}

/// Between two events, clients wait only at a leader: those who proposed wait under indexes above
/// what is applied, which hold the very entries that were stored for them, and those who read wait
/// in the term in which they asked.
pub proof fn law_tickets_wait_for_their_entries(start: Loop, moments: Seq<Moment>, n: nat)
    requires
        is_loop_run(start, moments),
        n <= moments.len(),
        holds_what_it_applied(start, moments, n),
        loop_at(start, moments, n).todo.len() == 0,
    ensures
        ({
            let now = loop_at(start, moments, n);
            &&& forall|index: u64| #[trigger]
                now.driver.proposals.dom().contains(index) ==> waits_for_its_entry(now, index)
            &&& forall|index: u64| #[trigger]
                now.driver.reads.dom().contains(index) ==> waits_in_its_term(now, index)
        }),
{
    let now = loop_at(start, moments, n);
    lemma_run_keeps(start, moments, n);
    lemma_run_passes_nobody_over(start, moments, n);
    reveal(keeps_its_word);
    reveal(passes_nobody_over);
    assert forall|index: u64| #[trigger]
        now.driver.proposals.dom().contains(index) implies waits_for_its_entry(now, index) by {
        assert(stands_for_its_entry(now, index));
        if index <= now.driver.core.last_applied {
            assert(is_next(now.todo, index));
        }
    }
}

/// Whether the next action to carry out is what a client waits for: it applies the entry that was
/// stored for the client's proposal, or it lets the client's read go ahead.
pub open spec fn is_entitled(now: Loop, ticket: u64) -> bool {
    let node = now.driver.core;
    &&& node.state == RaftState::Leader
    &&& match now.todo[0] {
        ActionView::ApplyToStateMachine { index, command } => {
            &&& index <= node.commit_index
            &&& now.proposed.dom().contains(index)
            &&& now.proposed[index] == (Proposed {
                ticket,
                entry: EntryView { term: node.current_term, command },
            })
        },
        ActionView::ReadBarrierReady { id } => {
            &&& id <= node.commit_index
            &&& now.asked.dom().contains(id)
            &&& now.asked[id] == (Asked { ticket, term: node.current_term })
        },
        _ => false,
    }
}

/// A client is told that its proposal went through only when the entry that was stored for it is
/// applied: the command that is applied at that index is the client's own, and it is committed. A
/// client is told that its read may go ahead only by the leader that it asked, in the same term,
/// when the no-op that was added for it is committed.
pub proof fn law_clients_are_told_of_their_own_commands(
    start: Loop,
    moments: Seq<Moment>,
    n: nat,
    ticket: u64,
)
    requires
        is_loop_run(start, moments),
        n < moments.len(),
        moments[n as int] is CarryOut,
        carried_out(loop_at(start, moments, n)).contains(
            EffectView::Reply { ticket, result: Ok(()) },
        ),
    ensures
        is_entitled(loop_at(start, moments, n), ticket),
{
    lemma_run_keeps(start, moments, n);
    assert(can_do(loop_at(start, moments, n), moments[n as int]));
    lemma_told(loop_at(start, moments, n), ticket);
}

proof fn lemma_told(now: Loop, ticket: u64)
    requires
        keeps_its_word(now),
        can_do(now, Moment::CarryOut),
        carried_out(now).contains(EffectView::Reply { ticket, result: Ok(()) }),
    ensures
        is_entitled(now, ticket),
{
    reveal(keeps_its_word);
    assert(answers_rightly(now, now.todo[0]));
    match now.todo[0] {
        ActionView::ApplyToStateMachine { index, .. } => {
            assert(now.driver.proposals.dom().contains(index));
            assert(stands_for_its_entry(now, index));
        },
        ActionView::ReadBarrierReady { id } => {
            assert(now.driver.reads.dom().contains(id));
        },
        _ => {},
    }
}

} // verus!
