//! Agreement: what a cluster commits, it never takes back, and all nodes apply the same commands.
//!
//! The proof keeps the log of each term's leader as far as that leader got. Every log ends in an
//! entry of some term and is then the beginning of that term's log, so two logs that agree on the
//! term of one entry agree on everything before it. What more than half of the nodes hold in the
//! term of its leader is chosen: it is part of the log of every later leader, since one of its
//! voters held it and does not vote for a log that falls behind its own.

use crate::election::{
    lemma_quorums_meet, quorum, votes_grow, votes_ok, votes_term_ok, Turn, Votes,
};
use crate::model::placeholder;
use crate::types::EntryView;
use vstd::prelude::*;

verus! {

/// A whole log, with the entries that a snapshot has taken the place of.
pub type Log = Seq<EntryView>;

/// Word of a node to the leader of a term that it holds the leader's log up to an index.
pub struct Ack {
    pub node: u64,
    pub term: u64,
    pub index: int,
}

/// The logs of a cluster so far.
#[verifier::ext_equal]
pub struct Logs {
    /// The log of each node.
    pub full: Map<u64, Log>,
    /// The log of each term's leader, as far as it got in that term.
    pub logs: Map<u64, Log>,
    /// The log with which a node stood for election.
    pub own: Map<Turn, Log>,
    /// The log with which a node voted for another.
    pub ballot: Map<Turn, Log>,
    pub acks: Set<Ack>,
}

/// Whether two logs have the same first `n` entries.
pub open spec fn agree(a: Log, b: Log, n: int) -> bool {
    0 <= n <= a.len() && n <= b.len() && a.take(n) == b.take(n)
}

pub proof fn lemma_agree_less(a: Log, b: Log, n: int, k: int)
    requires
        agree(a, b, n),
        0 <= k <= n,
    ensures
        agree(a, b, k),
{
    assert(a.take(k) =~= a.take(n).take(k));
    assert(b.take(k) =~= b.take(n).take(k));
}

pub proof fn lemma_agree_at(a: Log, b: Log, n: int, i: int)
    requires
        agree(a, b, n),
        0 <= i < n,
    ensures
        a[i] == b[i],
{
    assert(a.take(n)[i] == a[i]);
    assert(b.take(n)[i] == b[i]);
}

/// Whether each entry stands where the leader of its term has put it.
pub open spec fn sound_log(log: Log, votes: Votes, logs: Map<u64, Log>) -> bool {
    &&& log.len() >= 1
    &&& log[0] == placeholder(0)
    &&& forall|i: int| 1 <= i < log.len() ==> rooted(log, #[trigger] log[i].term, i, votes, logs)
    &&& forall|i: int, j: int|
        0 <= i <= j < log.len() ==> (#[trigger] log[i]).term <= (#[trigger] log[j]).term
}

/// Whether the log up to `i` is the beginning of the log of a term.
pub open spec fn rooted(log: Log, term: u64, i: int, votes: Votes, logs: Map<u64, Log>) -> bool {
    1 <= term && votes.has_led(term) && agree(log, logs[term], i + 1)
}

/// Logs with entries of the same term at the same place agree up to there.
pub proof fn lemma_same_entry(a: Log, b: Log, i: int, votes: Votes, logs: Map<u64, Log>)
    requires
        sound_log(a, votes, logs),
        sound_log(b, votes, logs),
        0 <= i < a.len(),
        i < b.len(),
        a[i].term == b[i].term,
    ensures
        agree(a, b, i + 1),
{
    if i == 0 {
        assert(a.take(1) =~= b.take(1));
    } else {
        assert(rooted(a, a[i].term, i, votes, logs));
        assert(rooted(b, b[i].term, i, votes, logs));
    }
}

/// Whether a candidate's log is at least as complete as that of a voter.
pub open spec fn at_least_as_complete(candidate: Log, voter: Log) -> bool {
    ||| candidate.last().term > voter.last().term
    ||| candidate.last().term == voter.last().term && candidate.len() >= voter.len()
}

impl Logs {
    /// Whether a node has told the leader of a term that it holds the log up to `index`. The leader
    /// holds its own.
    pub open spec fn acked(self, votes: Votes, node: u64, term: u64, index: int) -> bool {
        &&& votes.has_led(term)
        &&& 0 <= index < self.logs[term].len()
        &&& {
            ||| votes.leader[term] == node
            ||| exists|k: int| index <= k && #[trigger] self.acks.contains(Ack { node, term, index: k })
        }
    }

    /// Whether the leader of `later` does not have what the leader of `term` had up to `index`.
    pub open spec fn lacks(self, votes: Votes, later: u64, term: u64, index: int) -> bool {
        votes.has_led(later) && !agree(self.logs[later], self.logs[term], index + 1)
    }

    /// Whether some leader after `term` and before `limit` does not have what the leader of `term`
    /// had up to `index`.
    pub open spec fn lost(self, votes: Votes, term: u64, index: int, limit: int) -> bool {
        exists|later: u64| term < later < limit && #[trigger] self.lacks(votes, later, term, index)
    }

    /// Whether a log still has what the leader of `term` had up to `index`, unless a leader before
    /// `limit` did not.
    pub open spec fn kept(
        self,
        votes: Votes,
        log: Log,
        term: u64,
        index: int,
        limit: int,
    ) -> bool {
        agree(log, self.logs[term], index + 1) || self.lost(votes, term, index, limit)
    }

    /// Whether more than half of the nodes hold the log of a term's leader up to an entry of that
    /// term.
    pub open spec fn chosen(self, votes: Votes, ids: Set<u64>, term: u64, index: int) -> bool {
        &&& votes.has_led(term)
        &&& 0 <= index < self.logs[term].len()
        &&& self.logs[term][index].term == term
        &&& exists|nodes: Set<u64>| #[trigger]
            quorum(nodes, ids) && self.all_acked(votes, nodes, term, index)
    }

    pub open spec fn all_acked(self, votes: Votes, nodes: Set<u64>, term: u64, index: int) -> bool {
        forall|node: u64| #[trigger]
            nodes.contains(node) ==> self.acked(votes, node, term, index)
    }

    /// Whether what a log holds up to `index` has been chosen in `limit` or before.
    pub open spec fn settled(
        self,
        votes: Votes,
        ids: Set<u64>,
        log: Log,
        index: int,
        limit: u64,
    ) -> bool {
        ||| index == 0
        ||| exists|term: u64, last: int| #[trigger]
            self.chosen(votes, ids, term, last) && term <= limit && index <= last && agree(
                log,
                self.logs[term],
                index + 1,
            )
    }
}

/// What holds of the log of a term's leader: it is the log with which the leader stood, and entries
/// of the term.
pub open spec fn term_log_ok(logs: Logs, votes: Votes, term: u64) -> bool {
    let own = logs.own[Turn { node: votes.leader[term], term }];
    let log = logs.logs[term];
    &&& 1 <= own.len() < log.len()
    &&& agree(own, log, own.len() as int)
    &&& forall|i: int| own.len() <= i < log.len() ==> (#[trigger] log[i]).term == term
    &&& sound_log(log, votes, logs.logs)
}

/// What holds of the log with which a node stood for election.
pub open spec fn own_log_ok(logs: Logs, votes: Votes, turn: Turn) -> bool {
    &&& sound_log(logs.own[turn], votes, logs.logs)
    &&& logs.own[turn].last().term < turn.term
}

/// What holds of the log with which a node voted for another.
pub open spec fn ballot_log_ok(logs: Logs, votes: Votes, turn: Turn) -> bool {
    let candidate = Turn { node: votes.choice[turn], term: turn.term };
    &&& sound_log(logs.ballot[turn], votes, logs.logs)
    &&& at_least_as_complete(logs.own[candidate], logs.ballot[turn])
}

/// What holds of the logs of a cluster.
#[verifier::opaque]
pub open spec fn logs_ok(logs: Logs, votes: Votes, ids: Set<u64>) -> bool {
    &&& forall|term: u64| #[trigger] votes.has_led(term) ==> term_log_ok(logs, votes, term)
    &&& forall|turn: Turn| #[trigger] votes.stood.contains(turn) ==> own_log_ok(logs, votes, turn)
    &&& forall|turn: Turn| #[trigger]
        votes.choice.dom().contains(turn) ==> ballot_log_ok(logs, votes, turn)
    &&& forall|ack: Ack| #[trigger]
        logs.acks.contains(ack) ==> ids.contains(ack.node) && votes.has_led(ack.term) && 0
            <= ack.index < logs.logs[ack.term].len()
    &&& forall|turn: Turn, term: u64, index: int|
        #![trigger votes.stood.contains(turn), logs.acked(votes, turn.node, term, index)]
        votes.stood.contains(turn) && term < turn.term && logs.acked(
            votes,
            turn.node,
            term,
            index,
        ) ==> logs.kept(votes, logs.own[turn], term, index, turn.term as int)
    &&& forall|turn: Turn, term: u64, index: int|
        #![trigger votes.choice.dom().contains(turn), logs.acked(votes, turn.node, term, index)]
        votes.choice.dom().contains(turn) && term < turn.term && logs.acked(
            votes,
            turn.node,
            term,
            index,
        ) ==> {
            ||| logs.kept(votes, logs.ballot[turn], term, index, turn.term as int)
            ||| votes.has_led(turn.term) && !votes.voters[turn.term].contains(turn.node)
        }
}

/// Leader completeness: what has been chosen in a term is part of the log of every later leader.
pub proof fn lemma_leader_completeness(
    logs: Logs,
    votes: Votes,
    ids: Set<u64>,
    term: u64,
    index: int,
    later: u64,
)
    requires
        votes_ok(votes, ids),
        logs_ok(logs, votes, ids),
        logs.chosen(votes, ids, term, index),
        votes.has_led(later),
        term <= later,
    ensures
        agree(logs.logs[later], logs.logs[term], index + 1),
    decreases later,
{
    reveal(logs_ok);
    if term < later {
        let nodes = choose|nodes: Set<u64>| #[trigger]
            quorum(nodes, ids) && logs.all_acked(votes, nodes, term, index);
        assert(votes_term_ok(votes, later, ids));
        let voter = lemma_quorums_meet(nodes, votes.voters[later], ids);
        let leader = votes.leader[later];
        assert(logs.acked(votes, voter, term, index));
        assert(votes.voted(voter, later, leader));
        let stood = Turn { node: leader, term: later };
        let own = logs.own[stood];
        let chosen = logs.logs[term];
        assert(term_log_ok(logs, votes, later));
        assert(own_log_ok(logs, votes, stood));
        assert(term_log_ok(logs, votes, term));
        assert forall|between: u64| term < between < later && votes.has_led(between) implies agree(
            #[trigger] logs.logs[between],
            chosen,
            index + 1,
        ) by {
            lemma_leader_completeness(logs, votes, ids, term, index, between);
        }
        assert(!logs.lost(votes, term, index, later as int));
        assert(agree(own, chosen, index + 1)) by {
            if voter == leader {
                assert(votes.stood.contains(stood));
                assert(logs.acked(votes, stood.node, term, index));
                assert(logs.kept(votes, own, term, index, later as int));
            } else {
                let turn = Turn { node: voter, term: later };
                let ballot = logs.ballot[turn];
                assert(logs.kept(votes, ballot, term, index, later as int));
                assert(ballot_log_ok(logs, votes, turn));
                let last = ballot.len() - 1;
                lemma_agree_at(ballot, chosen, index + 1, index);
                assert(ballot[index].term <= ballot[last].term);
                if own.last().term == ballot.last().term {
                    if last > 0 {
                        assert(rooted(ballot, ballot[last].term, last, votes, logs.logs));
                        assert(rooted(
                            own,
                            own[own.len() - 1].term,
                            own.len() - 1,
                            votes,
                            logs.logs,
                        ));
                    }
                    lemma_agree_less(own, logs.logs[own.last().term], own.len() as int, index + 1);
                    lemma_agree_less(
                        ballot,
                        logs.logs[ballot.last().term],
                        ballot.len() as int,
                        index + 1,
                    );
                } else {
                    let end = own.len() - 1;
                    let between = own[end].term;
                    assert(rooted(own, between, end, votes, logs.logs));
                    let middle = logs.logs[between];
                    assert(agree(middle, chosen, index + 1));
                    lemma_agree_at(middle, chosen, index + 1, index);
                    lemma_agree_at(own, middle, end + 1, end);
                    assert(term_log_ok(logs, votes, between));
                    assert(end > index) by {
                        if end <= index {
                            assert(middle[end].term <= middle[index].term);
                        }
                    }
                    lemma_agree_less(own, middle, end + 1, index + 1);
                }
            }
        }
        lemma_agree_less(own, logs.logs[later], own.len() as int, index + 1);
    }
}

// ------------------------------------------------------------------------------ what stays true

/// Whether logs have only been added to, and only on account of the node `id`.
pub open spec fn logs_grow(
    logs: Logs,
    votes: Votes,
    next: Logs,
    votes_next: Votes,
    id: u64,
) -> bool {
    &&& votes_grow(votes, votes_next)
    &&& forall|term: u64| #[trigger]
        votes.has_led(term) ==> agree(
            logs.logs[term],
            next.logs[term],
            logs.logs[term].len() as int,
        ) && (votes.leader[term] != id ==> next.logs[term] == logs.logs[term])
    &&& forall|term: u64| #[trigger]
        votes_next.has_led(term) && !votes.has_led(term) ==> votes_next.leader[term] == id
    &&& forall|turn: Turn| #[trigger]
        votes.stood.contains(turn) ==> next.own[turn] == logs.own[turn]
    &&& forall|turn: Turn| #[trigger]
        votes.choice.dom().contains(turn) ==> next.ballot[turn] == logs.ballot[turn]
    &&& forall|turn: Turn| #[trigger]
        votes_next.stood.contains(turn) && !votes.stood.contains(turn) ==> turn.node == id
    &&& forall|turn: Turn| #[trigger]
        votes_next.choice.dom().contains(turn) && !votes.choice.dom().contains(turn) ==> turn.node
            == id
    &&& logs.acks.subset_of(next.acks)
    &&& forall|ack: Ack| #[trigger]
        next.acks.contains(ack) && !logs.acks.contains(ack) ==> ack.node == id
    &&& forall|node: u64| node != id ==> #[trigger] next.full[node] == logs.full[node]
}

proof fn lemma_agree_grown(
    log: Log,
    logs: Logs,
    votes: Votes,
    next: Logs,
    votes_next: Votes,
    id: u64,
    term: u64,
    n: int,
)
    requires
        logs_grow(logs, votes, next, votes_next, id),
        votes.has_led(term),
        agree(log, logs.logs[term], n),
    ensures
        agree(log, next.logs[term], n),
{
    lemma_agree_less(
        logs.logs[term],
        next.logs[term],
        logs.logs[term].len() as int,
        n,
    );
}

pub proof fn lemma_sound_grown(
    log: Log,
    logs: Logs,
    votes: Votes,
    next: Logs,
    votes_next: Votes,
    id: u64,
)
    requires
        logs_grow(logs, votes, next, votes_next, id),
        sound_log(log, votes, logs.logs),
    ensures
        sound_log(log, votes_next, next.logs),
{
    assert forall|i: int| 1 <= i < log.len() implies rooted(
        log,
        #[trigger] log[i].term,
        i,
        votes_next,
        next.logs,
    ) by {
        assert(rooted(log, log[i].term, i, votes, logs.logs));
        lemma_agree_grown(log, logs, votes, next, votes_next, id, log[i].term, i + 1);
    }
}

pub proof fn lemma_acked_grown(
    logs: Logs,
    votes: Votes,
    next: Logs,
    votes_next: Votes,
    id: u64,
    node: u64,
    term: u64,
    index: int,
)
    requires
        logs_grow(logs, votes, next, votes_next, id),
        logs.acked(votes, node, term, index),
    ensures
        next.acked(votes_next, node, term, index),
{
    if votes.leader[term] != node {
        let k = choose|k: int|
            index <= k && #[trigger] logs.acks.contains(Ack { node, term, index: k });
        assert(next.acks.contains(Ack { node, term, index: k }));
    }
}

/// What other nodes have acknowledged is not affected.
pub proof fn lemma_acked_before(
    logs: Logs,
    votes: Votes,
    next: Logs,
    votes_next: Votes,
    ids: Set<u64>,
    id: u64,
    node: u64,
    term: u64,
    index: int,
)
    requires
        logs_ok(logs, votes, ids),
        logs_grow(logs, votes, next, votes_next, id),
        next.acked(votes_next, node, term, index),
        node != id,
    ensures
        logs.acked(votes, node, term, index),
{
    reveal(logs_ok);
    if votes_next.leader[term] == node {
        assert(votes.has_led(term));
    } else {
        let k = choose|k: int|
            index <= k && #[trigger] next.acks.contains(Ack { node, term, index: k });
        assert(logs.acks.contains(Ack { node, term, index: k }));
    }
}

pub proof fn lemma_term_log(logs: Logs, votes: Votes, ids: Set<u64>, term: u64)
    requires
        logs_ok(logs, votes, ids),
        votes.has_led(term),
    ensures
        term_log_ok(logs, votes, term),
{
    reveal(logs_ok);
}

proof fn lemma_term_bound(logs: Logs, votes: Votes, ids: Set<u64>, term: u64, i: int)
    requires
        logs_ok(logs, votes, ids),
        votes.has_led(term),
        0 <= i < logs.logs[term].len(),
    ensures
        logs.logs[term][i].term <= term,
{
    reveal(logs_ok);
    let log = logs.logs[term];
    assert(term_log_ok(logs, votes, term));
    assert(log[log.len() - 1].term == term);
    assert(log[i].term <= log[log.len() - 1].term);
}

pub proof fn lemma_lacks_grown(
    logs: Logs,
    votes: Votes,
    next: Logs,
    votes_next: Votes,
    ids: Set<u64>,
    id: u64,
    later: u64,
    term: u64,
    index: int,
)
    requires
        logs_ok(logs, votes, ids),
        logs_grow(logs, votes, next, votes_next, id),
        votes.has_led(term),
        0 <= index < logs.logs[term].len(),
        term < later,
        logs.lacks(votes, later, term, index),
    ensures
        next.lacks(votes_next, later, term, index),
{
    reveal(logs_ok);
    let old_later = logs.logs[later];
    let new_later = next.logs[later];
    let old_term = logs.logs[term];
    let new_term = next.logs[term];
    assert(agree(old_later, new_later, old_later.len() as int));
    assert(agree(old_term, new_term, old_term.len() as int));
    lemma_agree_less(old_term, new_term, old_term.len() as int, index + 1);
    if agree(new_later, new_term, index + 1) {
        if index + 1 <= old_later.len() {
            lemma_agree_less(old_later, new_later, old_later.len() as int, index + 1);
        } else {
            assert(term_log_ok(logs, votes, later));
            let o = old_later.len() - 1;
            lemma_agree_at(new_later, new_term, index + 1, o);
            lemma_agree_at(old_later, new_later, old_later.len() as int, o);
            lemma_agree_at(old_term, new_term, index + 1, o);
            lemma_term_bound(logs, votes, ids, term, o);
        }
    }
}

pub proof fn lemma_kept_grown(
    log: Log,
    logs: Logs,
    votes: Votes,
    next: Logs,
    votes_next: Votes,
    ids: Set<u64>,
    id: u64,
    term: u64,
    index: int,
    limit: int,
)
    requires
        logs_ok(logs, votes, ids),
        logs_grow(logs, votes, next, votes_next, id),
        votes.has_led(term),
        0 <= index < logs.logs[term].len(),
        logs.kept(votes, log, term, index, limit),
    ensures
        next.kept(votes_next, log, term, index, limit),
{
    if agree(log, logs.logs[term], index + 1) {
        lemma_agree_grown(log, logs, votes, next, votes_next, id, term, index + 1);
    } else {
        let later = choose|later: u64|
            term < later < limit && #[trigger] logs.lacks(votes, later, term, index);
        lemma_lacks_grown(logs, votes, next, votes_next, ids, id, later, term, index);
    }
}

pub proof fn lemma_chosen_grown(
    logs: Logs,
    votes: Votes,
    next: Logs,
    votes_next: Votes,
    ids: Set<u64>,
    id: u64,
    term: u64,
    index: int,
)
    requires
        logs_grow(logs, votes, next, votes_next, id),
        logs.chosen(votes, ids, term, index),
    ensures
        next.chosen(votes_next, ids, term, index),
{
    let nodes = choose|nodes: Set<u64>| #[trigger]
        quorum(nodes, ids) && logs.all_acked(votes, nodes, term, index);
    assert forall|node: u64| #[trigger] nodes.contains(node) implies next.acked(
        votes_next,
        node,
        term,
        index,
    ) by {
        lemma_acked_grown(logs, votes, next, votes_next, id, node, term, index);
    }
    assert(next.all_acked(votes_next, nodes, term, index));
    lemma_agree_at(
        logs.logs[term],
        next.logs[term],
        logs.logs[term].len() as int,
        index,
    );
}

pub proof fn lemma_settled_grown(
    log: Log,
    logs: Logs,
    votes: Votes,
    next: Logs,
    votes_next: Votes,
    ids: Set<u64>,
    id: u64,
    index: int,
    limit: u64,
    limit_next: u64,
)
    requires
        logs_grow(logs, votes, next, votes_next, id),
        logs.settled(votes, ids, log, index, limit),
        limit <= limit_next,
    ensures
        next.settled(votes_next, ids, log, index, limit_next),
{
    if index != 0 {
        let (term, last) = choose|term: u64, last: int| #[trigger]
            logs.chosen(votes, ids, term, last) && term <= limit && index <= last && agree(
                log,
                logs.logs[term],
                index + 1,
            );
        lemma_chosen_grown(logs, votes, next, votes_next, ids, id, term, last);
        lemma_agree_grown(log, logs, votes, next, votes_next, id, term, index + 1);
    }
}

/// What holds of the logs still does when all that is new is in keeping with it: new logs of
/// leaders, candidates and voters, and new acknowledgements.
#[verifier::spinoff_prover]
pub proof fn lemma_logs_step(
    logs: Logs,
    votes: Votes,
    next: Logs,
    votes_next: Votes,
    ids: Set<u64>,
    id: u64,
)
    requires
        logs_ok(logs, votes, ids),
        votes_ok(votes, ids),
        votes_ok(votes_next, ids),
        logs_grow(logs, votes, next, votes_next, id),
        forall|term: u64| #[trigger]
            votes_next.has_led(term) && (!votes.has_led(term) || next.logs[term]
                != logs.logs[term]) ==> term_log_ok(next, votes_next, term),
        forall|turn: Turn| #[trigger]
            votes_next.stood.contains(turn) && !votes.stood.contains(turn) ==> own_log_ok(
                next,
                votes_next,
                turn,
            ),
        forall|turn: Turn| #[trigger]
            votes_next.choice.dom().contains(turn) && !votes.choice.dom().contains(turn)
                ==> ballot_log_ok(next, votes_next, turn),
        forall|ack: Ack| #[trigger]
            next.acks.contains(ack) && !logs.acks.contains(ack) ==> ids.contains(ack.node)
                && votes_next.has_led(ack.term) && 0 <= ack.index < next.logs[ack.term].len(),
        forall|turn: Turn, term: u64, index: int|
            #![trigger votes_next.stood.contains(turn), next.acked(votes_next, turn.node, term, index)]
            votes_next.stood.contains(turn) && term < turn.term && next.acked(
                votes_next,
                turn.node,
                term,
                index,
            ) && (!votes.stood.contains(turn) || !logs.acked(votes, turn.node, term, index))
                ==> next.kept(votes_next, next.own[turn], term, index, turn.term as int),
        forall|turn: Turn, term: u64, index: int|
            #![trigger votes_next.choice.dom().contains(turn), next.acked(votes_next, turn.node, term, index)]
            votes_next.choice.dom().contains(turn) && term < turn.term && next.acked(
                votes_next,
                turn.node,
                term,
                index,
            ) && (!votes.choice.dom().contains(turn) || !logs.acked(
                votes,
                turn.node,
                term,
                index,
            )) ==> {
                ||| next.kept(votes_next, next.ballot[turn], term, index, turn.term as int)
                ||| votes_next.has_led(turn.term) && !votes_next.voters[turn.term].contains(
                    turn.node,
                )
            },
    ensures
        logs_ok(next, votes_next, ids),
{
    reveal(logs_ok);
    assert forall|term: u64| #[trigger] votes_next.has_led(term) implies term_log_ok(
        next,
        votes_next,
        term,
    ) by {
        if votes.has_led(term) && next.logs[term] == logs.logs[term] {
            assert(votes.leader[term] == votes_next.leader[term]);
            assert(term_log_ok(logs, votes, term));
            assert(votes_term_ok(votes, term, ids));
            let turn = Turn { node: votes.leader[term], term };
            assert(votes.stood.contains(turn));
            lemma_sound_grown(logs.logs[term], logs, votes, next, votes_next, id);
        }
    }
    assert forall|turn: Turn| #[trigger] votes_next.stood.contains(turn) implies own_log_ok(
        next,
        votes_next,
        turn,
    ) by {
        if votes.stood.contains(turn) {
            assert(own_log_ok(logs, votes, turn));
            lemma_sound_grown(logs.own[turn], logs, votes, next, votes_next, id);
        }
    }
    assert forall|turn: Turn| #[trigger]
        votes_next.choice.dom().contains(turn) implies ballot_log_ok(next, votes_next, turn) by {
        if votes.choice.dom().contains(turn) {
            assert(ballot_log_ok(logs, votes, turn));
            lemma_sound_grown(logs.ballot[turn], logs, votes, next, votes_next, id);
            assert(votes.stood.contains(Turn { node: votes.choice[turn], term: turn.term }));
        }
    }
    assert forall|ack: Ack| #[trigger] next.acks.contains(ack) implies ids.contains(ack.node)
        && votes_next.has_led(ack.term) && 0 <= ack.index < next.logs[ack.term].len() by {
        if logs.acks.contains(ack) {
            assert(votes.has_led(ack.term));
        }
    }
    assert forall|turn: Turn, term: u64, index: int|
        #![trigger votes_next.stood.contains(turn), next.acked(votes_next, turn.node, term, index)]
        votes_next.stood.contains(turn) && term < turn.term && next.acked(
            votes_next,
            turn.node,
            term,
            index,
        ) implies next.kept(votes_next, next.own[turn], term, index, turn.term as int) by {
        if votes.stood.contains(turn) && logs.acked(votes, turn.node, term, index) {
            lemma_kept_grown(
                logs.own[turn],
                logs,
                votes,
                next,
                votes_next,
                ids,
                id,
                term,
                index,
                turn.term as int,
            );
        }
    }
    assert forall|turn: Turn, term: u64, index: int|
        #![trigger votes_next.choice.dom().contains(turn), next.acked(votes_next, turn.node, term, index)]
        votes_next.choice.dom().contains(turn) && term < turn.term && next.acked(
            votes_next,
            turn.node,
            term,
            index,
        ) implies {
        ||| next.kept(votes_next, next.ballot[turn], term, index, turn.term as int)
        ||| votes_next.has_led(turn.term) && !votes_next.voters[turn.term].contains(turn.node)
    } by {
        if votes.choice.dom().contains(turn) && logs.acked(votes, turn.node, term, index) {
            if logs.kept(votes, logs.ballot[turn], term, index, turn.term as int) {
                lemma_kept_grown(
                    logs.ballot[turn],
                    logs,
                    votes,
                    next,
                    votes_next,
                    ids,
                    id,
                    term,
                    index,
                    turn.term as int,
                );
            } else {
                assert(votes.has_led(turn.term));
                assert(votes.voters.dom().contains(turn.term));
                assert(votes_next.leader.dom().contains(turn.term));
                assert(votes_next.voters.dom().contains(turn.term));
                assert(votes_next.voters[turn.term] == votes.voters[turn.term]);
                assert(votes_next.has_led(turn.term));
            }
        }
    }
}

} // verus!
