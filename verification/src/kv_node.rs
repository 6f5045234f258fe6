//! How a node of the key-value store finds its place in the cluster, and what its clients are told.

use crate::config::{ProposalError, RaftConfig, RaftNodeDescription};
use crate::kv::{command_bytes, command_of, CommandView, KvCommand, KvStore};
use crate::statemachine::StateMachine;
use crate::text::{
    all_digits, decimal, law_numbers_are_read_back, parse_number, parsed, push_decimal,
};
use crate::types::NodeId;
use std::collections::HashMap;
use vstd::prelude::*;
use vstd::string::*;

verus! {

broadcast use vstd::std_specs::hash::group_hash_axioms;

// ------------------------------------------------------------------------------ who the node is

/// The last position of a character in a text, or -1.
pub open spec fn last_position(text: Seq<char>, mark: char) -> int
    decreases text.len(),
{
    if text.len() == 0 {
        -1
    } else if text.last() == mark {
        text.len() - 1
    } else {
        last_position(text.drop_last(), mark)
    }
}

/// What stands before and after the last occurrence of a character.
fn split_at_last(text: &str, mark: char) -> (parts: Option<(&str, &str)>)
    ensures
        match parts {
            Some((before, after)) => {
                let at = last_position(text@, mark);
                0 <= at < text@.len() && before@ == text@.take(at) && after@ == text@.skip(at + 1)
            },
            None => last_position(text@, mark) == -1,
        },
{
    let length: usize = text.unicode_len();
    let mut i: usize = length;
    assert(text@.take(length as int) =~= text@);
    while i > 0
        invariant
            0 <= i <= length,
            length == text@.len(),
            last_position(text@, mark) == last_position(text@.take(i as int), mark),
        decreases i,
    {
        let at: usize = i - 1;
        let ghost front = text@.take(i as int);
        assert(front.last() == text@[at as int]);
        assert(front.drop_last() =~= text@.take(at as int));
        if text.get_char(at) == mark {
            let before = text.substring_char(0, at);
            let after = text.substring_char(i, length);
            assert(before@ =~= text@.take(at as int));
            assert(after@ =~= text@.skip(at + 1));
            return Some((before, after));
        }
        i = at;
    }
    None
}

/// The last position of a character is where it stands with none after it, and there is none where
/// it does not stand at all.
pub proof fn law_last_positions_have_none_after_them(
    before: Seq<char>,
    mark: char,
    after: Seq<char>,
)
    requires
        !after.contains(mark),
    ensures
        last_position(after, mark) == -1,
        last_position(before + seq![mark] + after, mark) == before.len(),
    decreases after.len(),
{
    let whole = before + seq![mark] + after;
    if after.len() == 0 {
        assert(whole.last() == mark);
    } else {
        let front = after.drop_last();
        assert(after.last() == after[after.len() - 1]);
        assert(after.contains(after.last()));
        assert forall|c: char| front.contains(c) implies after.contains(c) by {
            let i = choose|i: int| 0 <= i < front.len() && front[i] == c;
            assert(after[i] == c);
        }
        law_last_positions_have_none_after_them(before, mark, front);
        assert(whole.drop_last() =~= before + seq![mark] + front);
        assert(whole.last() == after.last());
    }
}

proof fn lemma_digits_hold_no_mark(text: Seq<char>, mark: char)
    requires
        all_digits(text),
        !('0' <= mark <= '9'),
    ensures
        !text.contains(mark),
{
    if text.contains(mark) {
        let i = choose|i: int| 0 <= i < text.len() && text[i] == mark;
        assert('0' <= text[i] <= '9');
    }
}

/// The node whose hostname ends in a dash and a number has the id after that number, whatever comes
/// before the dash. A hostname without a dash, or with anything but a number after the last one,
/// stands for no id.
pub proof fn law_hostnames_number_from_zero(front: Seq<char>, n: u64, text: Seq<char>)
    ensures
        n < u64::MAX ==> hostname_id(front + seq!['-'] + decimal(n as nat)) == Ok::<
            u64,
            Seq<char>,
        >((n + 1) as u64),
        hostname_id(front + seq!['-'] + decimal(u64::MAX as nat)) == Err::<u64, Seq<char>>(
            decimal(u64::MAX as nat) + " is not a valid number (try using something < 2^64)"@,
        ),
        !text.contains('-') ==> hostname_id(text) == Err::<u64, Seq<char>>(
            "Hostname "@ + text + " has no final '-' with ID number"@,
        ),
        !text.contains('-') && parsed(text) is None ==> hostname_id(front + seq!['-'] + text)
            == Err::<u64, Seq<char>>("Invalid number for hostname: "@ + text),
{
    law_numbers_are_read_back(n);
    law_numbers_are_read_back(u64::MAX);
    lemma_digits_hold_no_mark(decimal(n as nat), '-');
    lemma_digits_hold_no_mark(decimal(u64::MAX as nat), '-');
    law_last_positions_have_none_after_them(front, '-', decimal(n as nat));
    law_last_positions_have_none_after_them(front, '-', decimal(u64::MAX as nat));
    assert((front + seq!['-'] + decimal(n as nat)).skip(front.len() as int + 1) =~= decimal(
        n as nat,
    ));
    assert((front + seq!['-'] + decimal(u64::MAX as nat)).skip(front.len() as int + 1) =~= decimal(
        u64::MAX as nat,
    ));
    if !text.contains('-') {
        law_last_positions_have_none_after_them(front, '-', text);
        assert((front + seq!['-'] + text).skip(front.len() as int + 1) =~= text);
    }
}

/// The id that a hostname stands for: one more than the number after its last dash.
pub open spec fn hostname_id(hostname: Seq<char>) -> Result<u64, Seq<char>> {
    let at = last_position(hostname, '-');
    if at == -1 {
        Err("Hostname "@ + hostname + " has no final '-' with ID number"@)
    } else {
        match parsed(hostname.skip(at + 1)) {
            None => Err("Invalid number for hostname: "@ + hostname.skip(at + 1)),
            Some(id) => if id < u64::MAX {
                Ok((id + 1) as u64)
            } else {
                Err(
                    decimal(id as nat)
                        + " is not a valid number (try using something < 2^64)"@,
                )
            },
        }
    }
}

/// Derives the id of a node from its hostname.
pub fn id_from_hostname(hostname: &str) -> (outcome: Result<NodeId, String>)
    ensures
        match outcome {
            Ok(id) => hostname_id(hostname@) == Ok::<u64, Seq<char>>(id),
            Err(error) => hostname_id(hostname@) == Err::<u64, Seq<char>>(error@),
        },
{
    match split_at_last(hostname, '-') {
        None => {
            let mut error = String::from_str("Hostname ");
            error.append(hostname);
            error.append(" has no final '-' with ID number");
            Err(error)
        },
        Some((_, number)) => match parse_number(number) {
            None => {
                let mut error = String::from_str("Invalid number for hostname: ");
                error.append(number);
                Err(error)
            },
            Some(id) => match id.checked_add(1) {
                Some(next) => Ok(next),
                None => {
                    let mut error = String::new();
                    push_decimal(&mut error, id);
                    error.append(" is not a valid number (try using something < 2^64)");
                    assert(error@ =~= decimal(id as nat)
                        + " is not a valid number (try using something < 2^64)"@);
                    Err(error)
                },
            },
        },
    }
}

/// The id of this node: the one that was given, or the one that the hostname stands for.
pub fn resolve_id(id: Option<NodeId>, derive_id: bool, hostname: Option<String>) -> (outcome:
    Result<NodeId, String>)
    requires
        id is Some <==> !derive_id,
    ensures
        match id {
            Some(id) => outcome == Ok::<u64, String>(id),
            None => match hostname {
                None => outcome is Err && outcome->Err_0@
                    == "Attempted to derive node ID but HOSTNAME variable not set."@,
                Some(hostname) => match outcome {
                    Ok(id) => hostname_id(hostname@) == Ok::<u64, Seq<char>>(id),
                    Err(error) => hostname_id(hostname@) == Err::<u64, Seq<char>>(error@),
                },
            },
        },
{
    match id {
        Some(id) => Ok(id),
        None => match hostname {
            None => Err(
                String::from_str("Attempted to derive node ID but HOSTNAME variable not set."),
            ),
            Some(hostname) => id_from_hostname(hostname.as_str()),
        },
    }
}

/// Whether an id is that of one of `count` nodes, which are numbered from 1.
pub fn id_is_valid(id: NodeId, count: usize) -> (valid: bool)
    ensures
        valid <==> 1 <= id <= count,
{
    id != 0 && id <= count as u64
}

// ------------------------------------------------------------------------------------- addresses

/// Why the addresses of a cluster are of no use.
#[derive(Debug, Clone, Copy, PartialEq, Eq, Structural)]
pub enum AddressError {
    CountMismatch,
    InvalidRaftAddress,
    InvalidNodeAddress,
    InvalidPort,
}

impl AddressError {
    /// The error in words.
    pub open spec fn words(self) -> Seq<char> {
        match self {
            AddressError::CountMismatch => {
                "Number of Raft nodes and HTTP nodes for KV service don't match. Check your config"@
            },
            AddressError::InvalidRaftAddress => "Invalid address for Raft node"@,
            AddressError::InvalidNodeAddress => "Invalid node address"@,
            AddressError::InvalidPort => "Invalid port number for advertised address"@,
        }
    }

    /// The error in words.
    pub fn text(&self) -> (text: &'static str)
        ensures
            text@ == self.words(),
    {
        match self {
            AddressError::CountMismatch => {
                "Number of Raft nodes and HTTP nodes for KV service don't match. Check your config"
            },
            AddressError::InvalidRaftAddress => "Invalid address for Raft node",
            AddressError::InvalidNodeAddress => "Invalid node address",
            AddressError::InvalidPort => "Invalid port number for advertised address",
        }
    }
}

/// The port at the end of an address.
pub fn advertised_port(address: &str) -> (outcome: Result<u16, AddressError>)
    ensures
        outcome == ({
            let at = last_position(address@, ':');
            if at == -1 {
                Err(AddressError::InvalidNodeAddress)
            } else {
                match parsed(address@.skip(at + 1)) {
                    Some(port) => if port <= u16::MAX {
                        Ok(port as u16)
                    } else {
                        Err(AddressError::InvalidPort)
                    },
                    None => Err(AddressError::InvalidPort),
                }
            }
        }),
        forall|host: Seq<char>, port: u16|
            address@ == #[trigger] (host + seq![':'] + decimal(port as nat)) ==> outcome == Ok::<
                u16,
                AddressError,
            >(port),
        !address@.contains(':') ==> outcome == Err::<u16, AddressError>(
            AddressError::InvalidNodeAddress,
        ),
{
    proof {
        assert forall|host: Seq<char>, port: u16|
            address@ == #[trigger] (host + seq![':'] + decimal(port as nat)) implies last_position(
            address@,
            ':',
        ) == host.len() && parsed(address@.skip(host.len() as int + 1)) == Some(port as u64) by {
            law_numbers_are_read_back(port as u64);
            lemma_digits_hold_no_mark(decimal(port as nat), ':');
            law_last_positions_have_none_after_them(host, ':', decimal(port as nat));
            assert(address@.skip(host.len() as int + 1) =~= decimal(port as nat));
        }
        if !address@.contains(':') {
            law_last_positions_have_none_after_them(Seq::empty(), ':', address@);
        }
    }
    match split_at_last(address, ':') {
        None => Err(AddressError::InvalidNodeAddress),
        Some((_, port)) => match parse_number(port) {
            Some(port) => if port <= u16::MAX as u64 {
                Ok(port as u16)
            } else {
                Err(AddressError::InvalidPort)
            },
            None => Err(AddressError::InvalidPort),
        },
    }
}

/// The values of a sequence of texts.
pub open spec fn texts_view(texts: Seq<String>) -> Seq<Seq<char>> {
    texts.map_values(|text: String| text@)
}

/// The HTTP address of a node that shares the host of its Raft address and the port of this node.
pub open spec fn shared_port_address(raft_address: Seq<char>, port: u16) -> Seq<char> {
    raft_address.take(last_position(raft_address, ':')) + ":"@ + decimal(port as nat)
}

/// An HTTP address that is made up has the host of the Raft address, up to its last colon, and the
/// given port.
pub proof fn law_made_up_addresses_keep_the_host(host: Seq<char>, raft_port: Seq<char>, port: u16)
    requires
        !raft_port.contains(':'),
    ensures
        shared_port_address(host + seq![':'] + raft_port, port) == host + seq![':'] + decimal(
            port as nat,
        ),
{
    reveal_strlit(":");
    law_last_positions_have_none_after_them(host, ':', raft_port);
    assert((host + seq![':'] + raft_port).take(host.len() as int) =~= host);
    assert(":"@ =~= seq![':']);
}

/// Whether `addresses` holds the HTTP address of each node under its id.
pub open spec fn holds_addresses(addresses: Map<u64, String>, expected: Seq<Seq<char>>) -> bool {
    &&& forall|id: u64| #[trigger] addresses.dom().contains(id) <==> 1 <= id <= expected.len()
    &&& forall|id: u64| 1 <= id <= expected.len() ==> (#[trigger] addresses[id])@ == expected[id - 1]
}

/// Addresses are numbered from one, in their order, and no other number has one.
pub proof fn law_addresses_are_numbered_from_one(
    addresses: Map<u64, String>,
    expected: Seq<Seq<char>>,
    id: u64,
)
    requires
        holds_addresses(addresses, expected),
    ensures
        addresses.dom().contains(id) <==> 0 < id && id - 1 < expected.len(),
        addresses.dom().contains(id) ==> addresses[id]@ == expected[id - 1],
{
}

/// The HTTP addresses of all nodes by their ids: those that were given, or the hosts of the Raft
/// addresses with the HTTP port of this node.
pub fn http_addresses(nodes: &Vec<String>, http_nodes: &Option<Vec<String>>, port: u16) -> (outcome:
    Result<HashMap<NodeId, String>, AddressError>)
    ensures
        match *http_nodes {
            Some(given) => match outcome {
                Ok(addresses) => given@.len() == nodes@.len() && holds_addresses(
                    addresses@,
                    texts_view(given@),
                ),
                Err(error) => given@.len() != nodes@.len() && error == AddressError::CountMismatch,
            },
            None => match outcome {
                Ok(addresses) => {
                    &&& forall|i: int|
                        0 <= i < nodes@.len() ==> last_position(#[trigger] nodes@[i]@, ':') >= 0
                    &&& holds_addresses(
                        addresses@,
                        texts_view(nodes@).map_values(
                            |address: Seq<char>| shared_port_address(address, port),
                        ),
                    )
                },
                Err(error) => {
                    &&& exists|i: int|
                        0 <= i < nodes@.len() && last_position(#[trigger] nodes@[i]@, ':') == -1
                    &&& error == AddressError::InvalidRaftAddress
                },
            },
        },
{
    match http_nodes {
        Some(given) => {
            if given.len() != nodes.len() {
                return Err(AddressError::CountMismatch);
            }
            Ok(number_addresses(given))
        },
        None => {
            let mut shared: Vec<String> = Vec::new();
            let mut i: usize = 0;
            while i < nodes.len()
                invariant
                    http_nodes is None,
                    0 <= i <= nodes.len(),
                    shared@.len() == i,
                    forall|j: int|
                        0 <= j < i ==> last_position(#[trigger] nodes@[j]@, ':') >= 0,
                    forall|j: int|
                        0 <= j < i ==> (#[trigger] shared@[j])@ == shared_port_address(
                            nodes@[j]@,
                            port,
                        ),
                decreases nodes.len() - i,
            {
                match split_at_last(nodes[i].as_str(), ':') {
                    Some((host, _)) => {
                        let mut address = String::from_str(host);
                        address.append(":");
                        push_decimal(&mut address, port as u64);
                        assert(address@ =~= shared_port_address(nodes@[i as int]@, port));
                        shared.push(address);
                    },
                    None => {
                        assert(last_position(nodes@[i as int]@, ':') == -1);
                        return Err(AddressError::InvalidRaftAddress);
                    },
                }
                i = i + 1;
            }
            assert(texts_view(shared@) =~= texts_view(nodes@).map_values(
                |address: Seq<char>| shared_port_address(address, port),
            ));
            Ok(number_addresses(&shared))
        },
    }
}

/// Numbers addresses from 1.
fn number_addresses(given: &Vec<String>) -> (addresses: HashMap<NodeId, String>)
    ensures
        holds_addresses(addresses@, texts_view(given@)),
{
    let mut addresses: HashMap<NodeId, String> = HashMap::new();
    let mut i: usize = 0;
    while i < given.len()
        invariant
            0 <= i <= given.len(),
            forall|id: u64| #[trigger] addresses@.dom().contains(id) <==> 1 <= id <= i,
            forall|id: u64| 1 <= id <= i ==> (#[trigger] addresses@[id])@ == given@[id - 1]@,
        decreases given.len() - i,
    {
        let id: u64 = i as u64 + 1;
        let _ = addresses.insert(id, given[i].clone());
        i = i + 1;
    }
    addresses
}

/// The setup of a node of the key-value store: nodes are numbered from 1 in the order of their
/// addresses.
pub fn build_config(id: NodeId, nodes: &Vec<String>) -> (config: RaftConfig<String>)
    ensures
        config.id == id,
        config.nodes@.len() == nodes@.len(),
        forall|i: int|
            0 <= i < nodes@.len() ==> (#[trigger] config.nodes@[i]).id == i + 1
                && config.nodes@[i].address@ == nodes@[i]@,
        config.heartbeat_interval is None,
        config.election_range.start == 15,
        config.election_range.end == 31,
        config.tick_length == 10,
        config.snapshot_threshold == 1024,
{
    let mut descriptions: Vec<RaftNodeDescription<String>> = Vec::new();
    let mut i: usize = 0;
    while i < nodes.len()
        invariant
            0 <= i <= nodes.len(),
            descriptions@.len() == i,
            forall|j: int|
                0 <= j < i ==> (#[trigger] descriptions@[j]).id == j + 1
                    && descriptions@[j].address@ == nodes@[j]@,
        decreases nodes.len() - i,
    {
        descriptions.push(
            RaftNodeDescription { id: i as u64 + 1, address: nodes[i].clone() },
        );
        i = i + 1;
    }
    RaftConfig {
        id,
        nodes: descriptions,
        heartbeat_interval: None,
        election_range: 15..31,
        tick_length: 10,
        snapshot_threshold: 1024,
    }
}

// --------------------------------------------------------------------------------------- clients

/// Why a request of a client was not carried out.
#[derive(Debug, Clone)]
pub enum KvError {
    /// Not the leader, but we're aware who is so we can redirect
    Redirect(String),
    /// Not the leader but the leader is not known
    NoLeader,
    /// Was the leader when the proposal was accepted
    Uncertain,
    Internal,
}

/// What a [`KvError`] stands for.
pub enum KvErrorView {
    Redirect(Seq<char>),
    NoLeader,
    Uncertain,
    Internal,
}

impl View for KvError {
    type V = KvErrorView;

    open spec fn view(&self) -> KvErrorView {
        match *self {
            KvError::Redirect(url) => KvErrorView::Redirect(url@),
            KvError::NoLeader => KvErrorView::NoLeader,
            KvError::Uncertain => KvErrorView::Uncertain,
            KvError::Internal => KvErrorView::Internal,
        }
    }
}

/// What becomes of a request for `path` that a node did not carry out.
pub open spec fn mapped_error(
    error: ProposalError,
    addresses: Map<u64, String>,
    path: Seq<char>,
) -> KvErrorView {
    match error {
        ProposalError::FollowerNode { leader: Some(id) } => if addresses.dom().contains(id) {
            KvErrorView::Redirect("http://"@ + addresses[id]@ + path)
        } else {
            KvErrorView::NoLeader
        },
        ProposalError::FollowerNode { leader: None } => KvErrorView::NoLeader,
        ProposalError::LostLeadership => KvErrorView::Uncertain,
        ProposalError::OtherError => KvErrorView::Internal,
    }
}

/// A client that asks a follower is sent to the leader, under the same path, if the follower knows
/// the leader and its address, and is told that there is no leader if it does not. A client whose
/// leader was deposed is told that it cannot know what became of its request.
pub proof fn law_followers_send_clients_to_the_leader(
    leader: Option<u64>,
    addresses: Map<u64, String>,
    path: Seq<char>,
)
    ensures
        ({
            let mapped = mapped_error(ProposalError::FollowerNode { leader }, addresses, path);
            if leader is Some && addresses.dom().contains(leader->0) {
                let host = addresses[leader->0]@;
                &&& mapped matches KvErrorView::Redirect(url)
                &&& url.len() == 7 + host.len() + path.len()
                &&& url.take(7) == seq!['h', 't', 't', 'p', ':', '/', '/']
                &&& url.subrange(7, 7 + host.len() as int) == host
                &&& url.skip(7 + host.len() as int) == path
            } else {
                mapped is NoLeader
            }
        }),
        mapped_error(ProposalError::LostLeadership, addresses, path) is Uncertain,
        mapped_error(ProposalError::OtherError, addresses, path) is Internal,
{
    reveal_strlit("http://");
    if leader is Some && addresses.dom().contains(leader->0) {
        let host = addresses[leader->0]@;
        let url = "http://"@ + host + path;
        assert(url.take(7) =~= seq!['h', 't', 't', 'p', ':', '/', '/']);
        assert(url.subrange(7, 7 + host.len() as int) =~= host);
        assert(url.skip(7 + host.len() as int) =~= path);
    }
}

/// What a failed proposal means for the client that asked for `path`.
pub fn map_proposal_error(
    error: ProposalError,
    addresses: &HashMap<NodeId, String>,
    path: &str,
) -> (mapped: KvError)
    ensures
        match error {
            ProposalError::FollowerNode { leader: Some(id) } => if addresses@.dom().contains(id) {
                mapped matches KvError::Redirect(url) && url@ == "http://"@ + addresses@[id]@
                    + path@
            } else {
                mapped is NoLeader
            },
            ProposalError::FollowerNode { leader: None } => mapped is NoLeader,
            ProposalError::LostLeadership => mapped is Uncertain,
            ProposalError::OtherError => mapped is Internal,
        },
        mapped@ == mapped_error(error, addresses@, path@),
{
    match error {
        ProposalError::FollowerNode { leader: Some(id) } => match addresses.get(&id) {
            Some(address) => {
                let mut url = String::from_str("http://");
                url.append(address.as_str());
                url.append(path);
                KvError::Redirect(url)
            },
            None => KvError::NoLeader,
        },
        ProposalError::FollowerNode { leader: None } => KvError::NoLeader,
        ProposalError::LostLeadership => KvError::Uncertain,
        ProposalError::OtherError => KvError::Internal,
    }
}

/// An HTTP response without a body.
pub struct ErrorAnswer {
    pub status: u16,
    /// The value of the `Location` header.
    pub location: Option<String>,
    /// The value of the `Retry-After` header.
    pub retry_after: Option<&'static str>,
}

impl KvError {
    /// The HTTP response for the error.
    pub fn answer(self) -> (answer: ErrorAnswer)
        ensures
            match self {
                KvError::Redirect(url) => answer.status == 307 && answer.location == Some(url)
                    && answer.retry_after is None,
                KvError::NoLeader | KvError::Uncertain => answer.status == 503
                    && answer.location is None && answer.retry_after is Some
                    && answer.retry_after->0@ == "1"@,
                KvError::Internal => answer.status == 500 && answer.location is None
                    && answer.retry_after is None,
            },
    {
        match self {
            KvError::Redirect(url) => ErrorAnswer {
                status: 307,
                location: Some(url),
                retry_after: None,
            },
            KvError::NoLeader | KvError::Uncertain => ErrorAnswer {
                status: 503,
                location: None,
                retry_after: Some("1"),
            },
            KvError::Internal => ErrorAnswer { status: 500, location: None, retry_after: None },
        }
    }
}

#[derive(Debug, Clone)]
pub struct SetRequest {
    pub key: String,
    pub value: String,
}

#[derive(Debug, Clone)]
pub struct SetResponse {
    pub success: bool,
}

#[derive(Debug, Clone)]
pub struct GetResponse {
    pub value: Option<String>,
}

#[derive(Debug, Clone)]
pub struct DeleteResponse {
    pub success: bool,
}

/// The bytes of a command for the log.
fn command_or_internal(command: KvCommand) -> (outcome: Result<Vec<u8>, KvError>)
    ensures
        outcome is Ok,
        outcome->Ok_0@ == command_bytes(command@),
        command_of(outcome->Ok_0@) == Some(command@),
{
    match command.encode() {
        Some(bytes) => Ok(bytes),
        None => Err(KvError::Internal),
    }
}

/// The command to propose for a request to set a key.
pub fn set_command(request: SetRequest) -> (outcome: Result<Vec<u8>, KvError>)
    ensures
        outcome is Ok,
        outcome->Ok_0@ == command_bytes(CommandView::Put(request.key@, request.value@)),
        command_of(outcome->Ok_0@) == Some(CommandView::Put(request.key@, request.value@)),
{
    command_or_internal(KvCommand::Put(request.key, request.value))
}

/// The command to propose for a request to delete a key.
pub fn delete_command(key: String) -> (outcome: Result<Vec<u8>, KvError>)
    ensures
        outcome is Ok,
        outcome->Ok_0@ == command_bytes(CommandView::Delete(key@)),
        command_of(outcome->Ok_0@) == Some(CommandView::Delete(key@)),
{
    command_or_internal(KvCommand::Delete(key))
}

/// The answer to a request to read a key, once the node may read its own state.
pub fn get_response(store: &KvStore, key: &str) -> (response: GetResponse)
    requires
        store.wf(),
    ensures
        match response.value {
            Some(value) => store@.contains_pair(key@, value@),
            None => !store@.dom().contains(key@),
        },
{
    GetResponse { value: store.get(key) }
}

} // verus!
