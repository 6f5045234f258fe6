//! The task that sends to one peer.

use ferris_ferry::peer_link::{LinkStep, PeerLink, Sent, CONNECT_TIMEOUT, MAX_BACKOFF, MIN_BACKOFF};
use ferris_ferry::types::{Message, RequestVoteResponseRPC};

fn message(term: u64) -> Message {
    Message::RequestVoteResponse(RequestVoteResponseRPC {
        id: 1,
        term,
        vote_granted: false,
    })
}

#[test]
fn limits() {
    assert_eq!(MIN_BACKOFF, 10);
    assert_eq!(MAX_BACKOFF, 100);
    assert_eq!(CONNECT_TIMEOUT, 10_000);
}

#[test]
fn waits_grow_until_a_connection_is_made() {
    let mut link = PeerLink::new();
    let mut now = 1000;
    let mut waits = Vec::new();
    for _ in 0..6 {
        match link.next(now) {
            LinkStep::Connect { at } => {
                waits.push(at - now);
                now = at;
                link.on_connect_failed(now);
            }
            _ => panic!("not connected"),
        }
    }
    assert_eq!(waits, vec![10, 20, 40, 80, 100, 100]);

    link.on_connected();
    assert!(matches!(link.next(now), LinkStep::Listen));
    link.on_closed();
    // the wait starts over
    assert!(matches!(link.next(now), LinkStep::Connect { at } if at == now + 10));
}

#[test]
fn a_deadline_does_not_move_while_messages_come_in() {
    let mut link = PeerLink::new();
    assert!(matches!(link.next(5), LinkStep::Connect { at: 15 }));
    link.on_message(message(1));
    assert!(matches!(link.next(12), LinkStep::Connect { at: 15 }));
}

#[test]
fn only_the_latest_message_waits() {
    let mut link = PeerLink::new();
    let _ = link.next(0);
    link.on_message(message(1));
    link.on_message(message(2));
    link.on_connected();
    match link.next(20) {
        LinkStep::Send { message: sent } => assert_eq!(sent, message(2)),
        _ => panic!("a message waits"),
    }
    link.on_sent(Sent::Done);
    assert!(matches!(link.next(20), LinkStep::Listen));
}

#[test]
fn a_message_that_cannot_be_sent_is_kept_for_the_next_connection() {
    let mut link = PeerLink::new();
    let _ = link.next(0);
    link.on_connected();
    link.on_message(message(3));
    let sent = match link.next(0) {
        LinkStep::Send { message } => message,
        _ => panic!("a message waits"),
    };
    link.on_sent(Sent::Failed { message: sent });
    assert!(matches!(link.next(50), LinkStep::Connect { at: 60 }));
    link.on_connected();
    assert!(matches!(link.next(60), LinkStep::Send { message: m } if m == message(3)));
}

#[test]
fn a_message_without_binary_form_is_dropped() {
    let mut link = PeerLink::new();
    let _ = link.next(0);
    link.on_connected();
    link.on_message(message(3));
    let _ = link.next(0);
    link.on_sent(Sent::NotEncoded);
    assert!(matches!(link.next(0), LinkStep::Listen));
}
