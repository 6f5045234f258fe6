//! The decisions of the task that sends messages to one peer: when to connect, what to send, and
//! what to keep while there is no connection. Times are milliseconds on whatever clock the task
//! reads.
//!
//! The task alternates between asking for the next step, carrying it out, and telling what came of
//! it.

use crate::types::{Message, MessageView};
use vstd::prelude::*;

verus! {

/// The longest wait before another attempt to connect. It has to be shorter than an election
/// timeout, so that a peer that comes back is reached before one.
pub const MAX_BACKOFF: u64 = 100;

/// The wait before the first attempt to connect.
pub const MIN_BACKOFF: u64 = 10;

/// How long an attempt to connect may take.
pub const CONNECT_TIMEOUT: u64 = 10_000;

/// The state of the task.
pub struct PeerLink {
    pub connected: bool,
    /// The most recent message that has not been sent. Older ones are of no use to a peer that
    /// rejoins.
    pub pending: Option<Message>,
    pub backoff: u64,
    /// The time of the next attempt to connect.
    pub deadline: Option<u64>,
}

/// What a [`PeerLink`] stands for.
pub struct LinkView {
    pub connected: bool,
    pub pending: Option<MessageView>,
    pub backoff: u64,
    pub deadline: Option<u64>,
}

pub open spec fn optional_message(message: Option<Message>) -> Option<MessageView> {
    match message {
        Some(message) => Some(message@),
        None => None,
    }
}

impl View for PeerLink {
    type V = LinkView;

    open spec fn view(&self) -> LinkView {
        LinkView {
            connected: self.connected,
            pending: optional_message(self.pending),
            backoff: self.backoff,
            deadline: self.deadline,
        }
    }
}

/// What the task does next.
pub enum LinkStep {
    /// Wait for a message, and try to connect at the given time.
    Connect { at: u64 },
    /// Send a message.
    Send { message: Message },
    /// Wait for a message, and for the peer to close the connection.
    Listen,
}

/// What a [`LinkStep`] stands for.
pub enum LinkStepView {
    Connect { at: u64 },
    Send { message: MessageView },
    Listen,
}

impl View for LinkStep {
    type V = LinkStepView;

    open spec fn view(&self) -> LinkStepView {
        match *self {
            LinkStep::Connect { at } => LinkStepView::Connect { at },
            LinkStep::Send { message } => LinkStepView::Send { message: message@ },
            LinkStep::Listen => LinkStepView::Listen,
        }
    }
}

impl LinkView {
    /// What the task does next.
    pub open spec fn next(self, now: u64) -> (LinkView, LinkStepView) {
        if self.connected {
            match self.pending {
                Some(message) => (
                    LinkView { pending: None, ..self },
                    LinkStepView::Send { message },
                ),
                None => (self, LinkStepView::Listen),
            }
        } else {
            let at = match self.deadline {
                Some(at) => at,
                None => (now + self.backoff) as u64,
            };
            (LinkView { deadline: Some(at), ..self }, LinkStepView::Connect { at })
        }
    }

    /// There is a message for the peer.
    pub open spec fn on_message(self, message: MessageView) -> LinkView {
        LinkView { pending: Some(message), ..self }
    }

    /// A connection has been made.
    pub open spec fn on_connected(self) -> LinkView {
        LinkView { connected: true, backoff: MIN_BACKOFF, deadline: None, ..self }
    }

    /// An attempt to connect failed.
    pub open spec fn on_connect_failed(self, now: u64) -> LinkView {
        let backoff = doubled(self.backoff);
        LinkView { backoff, deadline: Some((now + backoff) as u64), ..self }
    }

    /// A message was not sent.
    pub open spec fn on_send_failed(self, message: MessageView) -> LinkView {
        LinkView { connected: false, pending: Some(message), ..self }
    }

    /// The peer has closed the connection.
    pub open spec fn on_closed(self) -> LinkView {
        LinkView { connected: false, ..self }
    }
}

/// What came of an attempt to send.
pub enum Sent {
    Done,
    /// The message has no binary form. It is dropped.
    NotEncoded,
    /// The connection failed. The message is kept.
    Failed { message: Message },
}

/// Twice the wait, up to the longest one.
pub open spec fn doubled(backoff: u64) -> u64 {
    if 2 * backoff <= MAX_BACKOFF {
        (2 * backoff) as u64
    } else {
        MAX_BACKOFF
    }
}

impl PeerLink {
    /// The wait is within its bounds, and there is no attempt to connect while there is a
    /// connection.
    pub open spec fn wf(&self) -> bool {
        &&& MIN_BACKOFF <= self.backoff <= MAX_BACKOFF
        &&& self.connected ==> self.deadline is None
    }

    /// The task starts without a connection.
    pub fn new() -> (link: Self)
        ensures
            link.wf(),
            link@ == (LinkView {
                connected: false,
                pending: None,
                backoff: MIN_BACKOFF,
                deadline: None,
            }),
    {
        PeerLink { connected: false, pending: None, backoff: MIN_BACKOFF, deadline: None }
    }

    /// The next step. A message that waits goes out as soon as there is a connection.
    pub fn next(&mut self, now: u64) -> (step: LinkStep)
        requires
            old(self).wf(),
            now + MAX_BACKOFF <= u64::MAX,
        ensures
            final(self).wf(),
            final(self)@.connected == old(self)@.connected,
            final(self)@.backoff == old(self)@.backoff,
            (final(self)@, step@) == old(self)@.next(now),
            if !old(self)@.connected {
                let at = match old(self)@.deadline {
                    Some(at) => at,
                    None => (now + old(self)@.backoff) as u64,
                };
                &&& step == LinkStep::Connect { at }
                &&& final(self)@.deadline == Some(at)
                &&& final(self)@.pending == old(self)@.pending
            } else {
                &&& final(self)@.deadline == old(self)@.deadline
                &&& final(self)@.pending is None
                &&& match old(self)@.pending {
                    Some(message) => step matches LinkStep::Send { message: sent } && sent@
                        == message,
                    None => step is Listen,
                }
            },
    {
        if !self.connected {
            let at: u64 = match self.deadline {
                Some(at) => at,
                None => now + self.backoff,
            };
            self.deadline = Some(at);
            LinkStep::Connect { at }
        } else {
            match self.pending.take() {
                Some(message) => LinkStep::Send { message },
                None => LinkStep::Listen,
            }
        }
    }

    /// There is a message for the peer. It takes the place of one that still waits.
    pub fn on_message(&mut self, message: Message)
        requires
            old(self).wf(),
        ensures
            final(self).wf(),
            final(self)@ == (LinkView { pending: Some(message@), ..old(self)@ }),
            final(self)@ == old(self)@.on_message(message@),
    {
        self.pending = Some(message);
    }

    /// A connection has been made.
    pub fn on_connected(&mut self)
        requires
            old(self).wf(),
        ensures
            final(self).wf(),
            final(self)@ == (LinkView {
                connected: true,
                pending: old(self)@.pending,
                backoff: MIN_BACKOFF,
                deadline: None,
            }),
            final(self)@ == old(self)@.on_connected(),
    {
        self.connected = true;
        self.backoff = MIN_BACKOFF;
        self.deadline = None;
    }

    /// An attempt to connect failed or took too long.
    pub fn on_connect_failed(&mut self, now: u64)
        requires
            old(self).wf(),
            !old(self)@.connected,
            now + MAX_BACKOFF <= u64::MAX,
        ensures
            final(self).wf(),
            final(self)@ == (LinkView {
                connected: false,
                pending: old(self)@.pending,
                backoff: doubled(old(self)@.backoff),
                deadline: Some((now + doubled(old(self)@.backoff)) as u64),
            }),
            final(self)@ == old(self)@.on_connect_failed(now),
    {
        let twice: u64 = 2 * self.backoff;
        self.backoff = if twice <= MAX_BACKOFF {
            twice
        } else {
            MAX_BACKOFF
        };
        self.deadline = Some(now + self.backoff);
    }

    /// A message that `next` handed out has been dealt with.
    pub fn on_sent(&mut self, sent: Sent)
        requires
            old(self).wf(),
            old(self)@.connected,
        ensures
            final(self).wf(),
            match sent {
                Sent::Failed { message } => final(self)@ == (LinkView {
                    connected: false,
                    pending: Some(message@),
                    ..old(self)@
                }),
                _ => final(self)@ == old(self)@,
            },
            sent matches Sent::Failed { message } ==> final(self)@ == old(self)@.on_send_failed(
                message@,
            ),
    {
        match sent {
            Sent::Failed { message } => {
                self.pending = Some(message);
                self.connected = false;
            },
            _ => {},
        }
    }

    /// The peer has closed the connection.
    pub fn on_closed(&mut self)
        requires
            old(self).wf(),
            old(self)@.connected,
        ensures
            final(self).wf(),
            final(self)@ == (LinkView { connected: false, ..old(self)@ }),
            final(self)@ == old(self)@.on_closed(),
    {
        self.connected = false;
    }
}

/// The last message that there is for a peer is the one that goes out, as soon as there is a
/// connection and once. Where there was a connection already it goes out next.
pub proof fn law_the_last_message_goes_out(
    link: LinkView,
    earlier: MessageView,
    message: MessageView,
    now: u64,
    later: u64,
)
    ensures
        ({
            let waiting = link.on_message(earlier).on_message(message);
            let linked = if link.connected {
                waiting
            } else {
                waiting.on_connected()
            };
            let (after, step) = linked.next(now);
            &&& step == (LinkStepView::Send { message })
            &&& after.connected && after.pending is None
            &&& after.next(later) == (after, LinkStepView::Listen)
        }),
{
}

/// A message that was not sent, and one that waits when the peer goes away, are kept until there is
/// a connection again, and go out then unless there is a newer one.
pub proof fn law_unsent_messages_are_kept(
    link: LinkView,
    message: MessageView,
    newer: MessageView,
    now: u64,
    later: u64,
)
    requires
        link.connected,
    ensures
        ({
            let failed = link.on_send_failed(message);
            &&& !failed.connected
            &&& failed.next(now).1 is Connect
            &&& failed.next(now).0.on_connected().next(later).1 == (LinkStepView::Send { message })
            &&& failed.next(now).0.on_connect_failed(now).on_connected().next(later).1 == (
            LinkStepView::Send { message })
            &&& failed.on_message(newer).on_connected().next(later).1 == (LinkStepView::Send {
                message: newer,
            })
        }),
        ({
            let closed = link.on_message(message).on_closed();
            &&& !closed.connected
            &&& closed.next(now).1 is Connect
            &&& closed.next(now).0.on_connected().next(later).1 == (LinkStepView::Send { message })
        }),
{
}

/// An attempt to connect is due the wait after it was first asked for, however often and however
/// late it is asked for again. After one that failed the next is due the new wait later, and a
/// connection has the wait start over.
pub proof fn law_attempts_keep_their_time(link: LinkView, now: u64, later: u64)
    requires
        !link.connected,
        link.backoff <= 100,
        now + 100 <= u64::MAX,
    ensures
        link.next(now).1 == (LinkStepView::Connect {
            at: if link.deadline is Some {
                link.deadline->0
            } else {
                (now + link.backoff) as u64
            },
        }),
        link.next(now).0.next(later) == link.next(now),
        link.next(now).0.pending == link.pending && !link.next(now).0.connected,
        link.next(now).0.backoff == link.backoff,
        link.on_connect_failed(now).next(later).1 == (LinkStepView::Connect {
            at: if link.backoff <= 50 {
                (now + 2 * link.backoff) as u64
            } else {
                (now + 100) as u64
            },
        }),
        link.on_connect_failed(now).backoff == if link.backoff <= 50 {
            2 * link.backoff
        } else {
            100
        },
        link.on_connected().backoff == 10 && link.on_connected().deadline is None,
        link.on_connected().on_closed().next(now).1 == (LinkStepView::Connect {
            at: (now + 10) as u64,
        }),
{
}

/// After `failures` attempts in a row, the wait is the shortest one doubled as often, up to the
/// longest one.
pub open spec fn backoff_after(failures: nat) -> u64
    decreases failures,
{
    if failures == 0 {
        MIN_BACKOFF
    } else {
        doubled(backoff_after((failures - 1) as nat))
    }
}

/// A failed attempt doubles the wait, from ten milliseconds on, as long as that is no longer than a
/// hundred, which is the longest. That is shorter than the shortest election timeout of a node of
/// the key-value store.
pub proof fn law_failures_double_the_wait(backoff: u64, failures: nat)
    requires
        backoff <= 100,
    ensures
        doubled(backoff) == if backoff <= 50 {
            2 * backoff
        } else {
            100
        },
        backoff_after(0) == 10,
        backoff_after(failures) <= 50 ==> backoff_after(failures + 1) == 2 * backoff_after(
            failures,
        ),
        backoff_after(failures) > 50 ==> backoff_after(failures + 1) == 100,
        backoff_after(failures) <= 100 < 15 * 10,
{
    law_waits_double_up_to_the_longest(failures);
}

/// The wait never falls and reaches the longest one after four failures, where it stays.
pub proof fn law_waits_double_up_to_the_longest(failures: nat)
    ensures
        MIN_BACKOFF <= backoff_after(failures) <= MAX_BACKOFF,
        failures > 0 ==> backoff_after((failures - 1) as nat) <= backoff_after(failures),
        failures >= 4 ==> backoff_after(failures) == MAX_BACKOFF,
    decreases failures,
{
    if failures > 0 {
        law_waits_double_up_to_the_longest((failures - 1) as nat);
    }
    if failures == 4 {
        reveal_with_fuel(backoff_after, 5);
    }
}

} // verus!
