//! The key-value store that the cluster replicates: its commands, their binary form, and what they
//! do.

use crate::codec::{
    decoded_pairs, decoded_tag_key, decoded_tag_pair, pairs_bytes, pairs_view, read_pairs,
    read_tag_key, read_tag_pair, string_bytes, varint, write_pairs, write_tag_key, write_tag_pair,
};
use crate::statemachine::StateMachine;
use vstd::prelude::*;

verus! {

#[derive(Debug, Clone)]
pub enum KvCommand {
    Get(String),
    Put(String, String),
    Delete(String),
}

/// What a [`KvCommand`] stands for.
pub enum CommandView {
    Get(Seq<char>),
    Put(Seq<char>, Seq<char>),
    Delete(Seq<char>),
}

impl View for KvCommand {
    type V = CommandView;

    open spec fn view(&self) -> CommandView {
        match *self {
            KvCommand::Get(key) => CommandView::Get(key@),
            KvCommand::Put(key, value) => CommandView::Put(key@, value@),
            KvCommand::Delete(key) => CommandView::Delete(key@),
        }
    }
}

pub const GET_TAG: u32 = 0;

pub const PUT_TAG: u32 = 1;

pub const DELETE_TAG: u32 = 2;

/// The binary form of a command.
pub open spec fn command_bytes(command: CommandView) -> Seq<u8> {
    match command {
        CommandView::Get(key) => varint(GET_TAG as nat) + string_bytes(key),
        CommandView::Put(key, value) => varint(PUT_TAG as nat) + string_bytes(key) + string_bytes(
            value,
        ),
        CommandView::Delete(key) => varint(DELETE_TAG as nat) + string_bytes(key),
    }
}

/// The command that bytes stand for, if they do for one.
pub open spec fn command_of(bytes: Seq<u8>) -> Option<CommandView> {
    match decoded_tag_key(bytes) {
        None => None,
        Some(variant) => {
            if variant.0 == GET_TAG {
                Some(CommandView::Get(variant.1))
            } else if variant.0 == DELETE_TAG {
                Some(CommandView::Delete(variant.1))
            } else if variant.0 == PUT_TAG {
                match decoded_tag_pair(bytes) {
                    None => None,
                    Some(variant) => Some(CommandView::Put(variant.1, variant.2)),
                }
            } else {
                None
            }
        },
    }
}

impl KvCommand {
    /// The binary form of the command, which `decode` reads back.
    pub fn encode(&self) -> (bytes: Option<Vec<u8>>)
        ensures
            bytes is Some,
            bytes->0@ == command_bytes(self@),
            command_of(bytes->0@) == Some(self@),
    {
        match self {
            KvCommand::Get(key) => write_tag_key(GET_TAG, key.as_str()),
            KvCommand::Put(key, value) => write_tag_pair(PUT_TAG, key.as_str(), value.as_str()),
            KvCommand::Delete(key) => write_tag_key(DELETE_TAG, key.as_str()),
        }
    }

    /// Reads a command.
    pub fn decode(bytes: &[u8]) -> (command: Option<KvCommand>)
        ensures
            match command {
                Some(command) => command_of(bytes@) == Some(command@),
                None => command_of(bytes@) is None,
            },
    {
        match read_tag_key(bytes) {
            None => None,
            Some((tag, key)) => {
                if tag == GET_TAG {
                    Some(KvCommand::Get(key))
                } else if tag == DELETE_TAG {
                    Some(KvCommand::Delete(key))
                } else if tag == PUT_TAG {
                    match read_tag_pair(bytes) {
                        None => None,
                        Some((_, key, value)) => Some(KvCommand::Put(key, value)),
                    }
                } else {
                    None
                }
            },
        }
    }
}

/// The answer to a command.
#[derive(Debug, Clone, PartialEq)]
pub enum KvResponse {
    Done,
    Value(Option<String>),
}

/// The pairs as a map. Of two values for a key the later one counts.
pub open spec fn pairs_map(pairs: Seq<(Seq<char>, Seq<char>)>) -> Map<Seq<char>, Seq<char>>
    decreases pairs.len(),
{
    if pairs.len() == 0 {
        Map::<Seq<char>, Seq<char>>::empty()
    } else {
        pairs_map(pairs.drop_last()).insert(pairs.last().0, pairs.last().1)
    }
}

/// Whether no key occurs twice.
pub open spec fn distinct_keys(pairs: Seq<(Seq<char>, Seq<char>)>) -> bool {
    forall|i: int, j: int|
        0 <= i < j < pairs.len() ==> (#[trigger] pairs[i]).0 != (#[trigger] pairs[j]).0
}

proof fn lemma_pairs_map(pairs: Seq<(Seq<char>, Seq<char>)>)
    requires
        distinct_keys(pairs),
    ensures
        forall|i: int|
            0 <= i < pairs.len() ==> #[trigger] pairs_map(pairs).contains_pair(
                pairs[i].0,
                pairs[i].1,
            ),
        forall|key: Seq<char>|
            #[trigger] pairs_map(pairs).dom().contains(key) ==> exists|i: int|
                0 <= i < pairs.len() && (#[trigger] pairs[i]).0 == key,
    decreases pairs.len(),
{
    if pairs.len() > 0 {
        let front = pairs.drop_last();
        lemma_pairs_map(front);
        let map = pairs_map(pairs);
        assert forall|i: int| 0 <= i < pairs.len() implies #[trigger] map.contains_pair(
            pairs[i].0,
            pairs[i].1,
        ) by {
            if i < front.len() {
                assert(pairs_map(front).contains_pair(front[i].0, front[i].1));
                assert(pairs[i].0 != pairs[pairs.len() - 1].0);
            }
        }
        assert forall|key: Seq<char>| #[trigger] map.dom().contains(key) implies exists|i: int|
            0 <= i < pairs.len() && (#[trigger] pairs[i]).0 == key by {
            if key == pairs.last().0 {
                let last = pairs.len() - 1;
                assert(0 <= last < pairs.len() && pairs[last].0 == key);
            } else {
                assert(pairs_map(front).dom().contains(key));
                let i = choose|i: int| 0 <= i < front.len() && (#[trigger] front[i]).0 == key;
                assert(pairs[i].0 == key);
            }
        }
    }
}

/// The store: pairs of a key and its value.
pub struct KvStore {
    pub pairs: Vec<(String, String)>,
}

impl View for KvStore {
    type V = Map<Seq<char>, Seq<char>>;

    open spec fn view(&self) -> Map<Seq<char>, Seq<char>> {
        pairs_map(pairs_view(self.pairs@))
    }
}

/// What a command makes of the store.
pub open spec fn applied(
    store: Map<Seq<char>, Seq<char>>,
    command: CommandView,
) -> Map<Seq<char>, Seq<char>> {
    match command {
        CommandView::Get(_) => store,
        CommandView::Put(key, value) => store.insert(key, value),
        CommandView::Delete(key) => store.remove(key),
    }
}

/// What a replicated command makes of the store. What cannot be read is passed over.
pub open spec fn applied_bytes(
    store: Map<Seq<char>, Seq<char>>,
    bytes: Seq<u8>,
) -> Map<Seq<char>, Seq<char>> {
    match command_of(bytes) {
        Some(command) => applied(store, command),
        None => store,
    }
}

impl KvStore {
    /// An empty store.
    pub fn new() -> (store: Self)
        ensures
            store.wf(),
            store@ == Map::<Seq<char>, Seq<char>>::empty(),
    {
        KvStore { pairs: Vec::new() }
    }

    /// The position of a key.
    fn find(&self, key: &str) -> (position: Option<usize>)
        requires
            self.wf(),
        ensures
            position is Some <==> self@.dom().contains(key@),
            position matches Some(i) ==> {
                &&& i < self.pairs@.len()
                &&& self.pairs@[i as int].0@ == key@
                &&& self@[key@] == self.pairs@[i as int].1@
            },
    {
        let ghost pairs = pairs_view(self.pairs@);
        proof {
            lemma_pairs_map(pairs);
        }
        let mut i: usize = 0;
        while i < self.pairs.len()
            invariant
                pairs == pairs_view(self.pairs@),
                0 <= i <= self.pairs.len(),
                forall|j: int| 0 <= j < i ==> (#[trigger] pairs[j]).0 != key@,
                forall|j: int|
                    0 <= j < pairs.len() ==> #[trigger] pairs_map(pairs).contains_pair(
                        pairs[j].0,
                        pairs[j].1,
                    ),
            decreases self.pairs.len() - i,
        {
            if same_text(self.pairs[i].0.as_str(), key) {
                assert(pairs_map(pairs).contains_pair(pairs[i as int].0, pairs[i as int].1));
                return Some(i);
            }
            assert(pairs[i as int].0 != key@);
            i = i + 1;
        }
        assert(!self@.dom().contains(key@)) by {
            if self@.dom().contains(key@) {
                let j = choose|j: int| 0 <= j < pairs.len() && (#[trigger] pairs[j]).0 == key@;
                assert(pairs[j].0 != key@);
            }
        }
        None
    }

    /// The value of a key.
    pub fn get(&self, key: &str) -> (value: Option<String>)
        requires
            self.wf(),
        ensures
            match value {
                Some(value) => self@.contains_pair(key@, value@),
                None => !self@.dom().contains(key@),
            },
    {
        match self.find(key) {
            Some(i) => Some(self.pairs[i].1.clone()),
            None => None,
        }
    }

    /// Drops a key.
    fn remove(&mut self, key: &str)
        requires
            old(self).wf(),
        ensures
            final(self).wf(),
            final(self)@ == old(self)@.remove(key@),
    {
        if let Some(i) = self.find(key) {
            let ghost before = pairs_view(self.pairs@);
            let _ = self.pairs.remove(i);
            proof {
                let after = pairs_view(self.pairs@);
                assert(after =~= before.remove(i as int));
                lemma_pairs_map(before);
                lemma_remove(before, i as int);
            }
        } else {
            assert(self@.remove(key@) =~= self@);
        }
    }

    /// Sets a key.
    fn insert(&mut self, key: String, value: String)
        requires
            old(self).wf(),
        ensures
            final(self).wf(),
            final(self)@ == old(self)@.insert(key@, value@),
    {
        self.remove(key.as_str());
        let ghost before = pairs_view(self.pairs@);
        self.pairs.push((key, value));
        proof {
            let after = pairs_view(self.pairs@);
            assert(after =~= before.push((key@, value@)));
            assert(after.drop_last() =~= before);
            lemma_pairs_map(before);
            assert forall|i: int, j: int| 0 <= i < j < after.len() implies (#[trigger] after[i]).0
                != (#[trigger] after[j]).0 by {
                if j == before.len() {
                    assert(pairs_map(before).contains_pair(before[i].0, before[i].1));
                }
            }
            assert(old(self)@.remove(key@).insert(key@, value@) =~= old(self)@.insert(
                key@,
                value@,
            ));
        }
    }

    /// Applies a command that was replicated. What cannot be read is passed over.
    pub fn apply_bytes(&mut self, bytes: &[u8])
        requires
            old(self).wf(),
        ensures
            final(self).wf(),
            final(self)@ == applied_bytes(old(self)@, bytes@),
    {
        if let Some(command) = KvCommand::decode(bytes) {
            let _ = self.apply(command);
        }
    }

    /// The state of the store in binary form, which `restore` takes over.
    pub fn snapshot(&self) -> (bytes: Option<Vec<u8>>)
        requires
            self.wf(),
        ensures
            bytes is Some,
            bytes->0@ == pairs_bytes(pairs_view(self.pairs@)),
            restored(bytes->0@) == Some(self@),
    {
        write_pairs(&self.pairs)
    }

    /// Takes over a state. One that cannot be read changes nothing.
    pub fn restore(&mut self, bytes: &[u8]) -> (done: bool)
        requires
            old(self).wf(),
        ensures
            final(self).wf(),
            done <==> restored(bytes@) is Some,
            final(self)@ == match restored(bytes@) {
                Some(map) => map,
                None => old(self)@,
            },
    {
        match read_pairs(bytes) {
            None => false,
            Some(pairs) => {
                let ghost all = pairs_view(pairs@);
                let mut store = KvStore::new();
                let mut i: usize = 0;
                assert(all.take(0) =~= Seq::<(Seq<char>, Seq<char>)>::empty());
                while i < pairs.len()
                    invariant
                        all == pairs_view(pairs@),
                        0 <= i <= pairs.len(),
                        store.wf(),
                        store@ == pairs_map(all.take(i as int)),
                    decreases pairs.len() - i,
                {
                    let key = pairs[i].0.clone();
                    let value = pairs[i].1.clone();
                    store.insert(key, value);
                    proof {
                        assert(all.take(i + 1).drop_last() =~= all.take(i as int));
                        assert(all.take(i + 1).last() == all[i as int]);
                    }
                    i = i + 1;
                }
                assert(all.take(i as int) =~= all);
                *self = store;
                true
            },
        }
    }
}

/// The store that a snapshot stands for, if it does for one.
pub open spec fn restored(bytes: Seq<u8>) -> Option<Map<Seq<char>, Seq<char>>> {
    match decoded_pairs(bytes) {
        Some(pairs) => Some(pairs_map(pairs)),
        None => None,
    }
}

/// After a key is set it has the value that it was set to, whatever the store held, after a key is
/// deleted it has none, and every other key is as it was. A command that reads changes nothing, and
/// neither does one that cannot be read.
pub proof fn law_commands_change_their_key(
    store: Map<Seq<char>, Seq<char>>,
    bytes: Seq<u8>,
    other: Seq<char>,
)
    ensures
        ({
            let after = applied_bytes(store, bytes);
            let untouched = after.dom().contains(other) == store.dom().contains(other)
                && after[other] == store[other];
            match command_of(bytes) {
                Some(CommandView::Put(key, value)) => {
                    &&& after.dom().contains(key) && after[key] == value
                    &&& other != key ==> untouched
                },
                Some(CommandView::Delete(key)) => {
                    &&& !after.dom().contains(key)
                    &&& other != key ==> after.dom().contains(other) == store.dom().contains(other)
                    &&& other != key && store.dom().contains(other) ==> after[other]
                        == store[other]
                },
                Some(CommandView::Get(_)) => after == store,
                None => after == store,
            }
        }),
{
}

/// Whether a command sets or deletes a key.
pub open spec fn touches(bytes: Seq<u8>, key: Seq<char>) -> bool {
    match command_of(bytes) {
        Some(CommandView::Put(other, _)) => other == key,
        Some(CommandView::Delete(other)) => other == key,
        _ => false,
    }
}

/// The last command that sets or deletes a key decides: a key that was set has the value that it
/// was last set to, a key that was deleted last has none, and a key that no command has touched is
/// as it was at the start.
pub proof fn law_the_last_command_counts(
    store: Map<Seq<char>, Seq<char>>,
    commands: Seq<Seq<u8>>,
    key: Seq<char>,
    n: int,
)
    requires
        -1 <= n < commands.len(),
        n >= 0 ==> touches(commands[n], key),
        forall|i: int| n < i < commands.len() ==> !touches(#[trigger] commands[i], key),
    ensures
        ({
            let after = applied_all(store, commands);
            if n == -1 {
                &&& after.dom().contains(key) == store.dom().contains(key)
                &&& store.dom().contains(key) ==> after[key] == store[key]
            } else {
                match command_of(commands[n]) {
                    Some(CommandView::Put(_, value)) => after.dom().contains(key) && after[key]
                        == value,
                    _ => !after.dom().contains(key),
                }
            }
        }),
    decreases commands.len(),
{
    if commands.len() > 0 {
        let front = commands.drop_last();
        if n < front.len() {
            assert forall|i: int| n < i < front.len() implies !touches(
                #[trigger] front[i],
                key,
            ) by {
                assert(!touches(commands[i], key));
            }
            assert(!touches(commands[commands.len() - 1], key));
            law_the_last_command_counts(store, front, key, n);
        }
    }
}

/// A state that is taken over has exactly the keys of the pairs that it was written as, each one
/// with its last value. Where no pairs can be read there is no state.
pub proof fn law_states_hold_their_pairs(bytes: Seq<u8>, i: int)
    ensures
        restored(bytes) is Some <==> decoded_pairs(bytes) is Some,
        decoded_pairs(bytes) matches Some(pairs) ==> {
            &&& 0 <= i < pairs.len() && (forall|j: int|
                i < j < pairs.len() ==> (#[trigger] pairs[j]).0 != pairs[i].0)
                ==> restored(bytes)->0.contains_pair(pairs[i].0, pairs[i].1)
            &&& forall|key: Seq<char>| #[trigger]
                restored(bytes)->0.dom().contains(key) ==> exists|j: int|
                    0 <= j < pairs.len() && (#[trigger] pairs[j]).0 == key
        },
{
    if let Some(pairs) = decoded_pairs(bytes) {
        if 0 <= i < pairs.len() && forall|j: int|
            i < j < pairs.len() ==> (#[trigger] pairs[j]).0 != pairs[i].0 {
            lemma_last_pair(pairs, i);
        }
        assert forall|key: Seq<char>| #[trigger]
            pairs_map(pairs).dom().contains(key) implies exists|j: int|
            0 <= j < pairs.len() && (#[trigger] pairs[j]).0 == key by {
            lemma_key_of_pair(pairs, key);
        }
    }
}

proof fn lemma_last_pair(pairs: Seq<(Seq<char>, Seq<char>)>, i: int)
    requires
        0 <= i < pairs.len(),
        forall|j: int| i < j < pairs.len() ==> (#[trigger] pairs[j]).0 != pairs[i].0,
    ensures
        pairs_map(pairs).contains_pair(pairs[i].0, pairs[i].1),
    decreases pairs.len(),
{
    let front = pairs.drop_last();
    if i < front.len() {
        assert(pairs[pairs.len() - 1].0 != pairs[i].0);
        assert forall|j: int| i < j < front.len() implies (#[trigger] front[j]).0 != front[i].0 by {
            assert(pairs[j].0 != pairs[i].0);
        }
        lemma_last_pair(front, i);
    }
}

proof fn lemma_key_of_pair(pairs: Seq<(Seq<char>, Seq<char>)>, key: Seq<char>)
    requires
        pairs_map(pairs).dom().contains(key),
    ensures
        exists|j: int| 0 <= j < pairs.len() && (#[trigger] pairs[j]).0 == key,
    decreases pairs.len(),
{
    if pairs.len() > 0 {
        let last = pairs.len() - 1;
        if pairs[last].0 != key {
            lemma_key_of_pair(pairs.drop_last(), key);
            let j = choose|j: int|
                0 <= j < pairs.drop_last().len() && (#[trigger] pairs.drop_last()[j]).0 == key;
            assert(pairs[j].0 == key);
        }
    }
}

/// Bytes stand for the command whose number they start with, with the texts that follow, and for
/// none where there is no such number or a text is missing.
pub proof fn law_bytes_stand_for_their_command(bytes: Seq<u8>)
    ensures
        decoded_tag_key(bytes) is None ==> command_of(bytes) is None,
        decoded_tag_key(bytes) matches Some((number, key)) ==> {
            &&& number == 0 ==> command_of(bytes) == Some(CommandView::Get(key))
            &&& number == 1 ==> command_of(bytes) == match decoded_tag_pair(bytes) {
                Some((_, key, value)) => Some(CommandView::Put(key, value)),
                None => None,
            }
            &&& number == 2 ==> command_of(bytes) == Some(CommandView::Delete(key))
            &&& number > 2 ==> command_of(bytes) is None
        },
{
}

/// The binary form of a command starts with the number of its kind, and its texts follow, each one
/// after the length of its UTF-8 form.
pub proof fn law_commands_start_with_their_number(key: Seq<char>, value: Seq<char>)
    ensures
        command_bytes(CommandView::Get(key)) == seq![0u8] + string_bytes(key),
        command_bytes(CommandView::Put(key, value)) == seq![1u8] + string_bytes(key)
            + string_bytes(value),
        command_bytes(CommandView::Delete(key)) == seq![2u8] + string_bytes(key),
{
}

/// The store after a run of replicated commands.
pub open spec fn applied_all(
    store: Map<Seq<char>, Seq<char>>,
    commands: Seq<Seq<u8>>,
) -> Map<Seq<char>, Seq<char>>
    decreases commands.len(),
{
    if commands.len() == 0 {
        store
    } else {
        applied_bytes(applied_all(store, commands.drop_last()), commands.last())
    }
}

/// A snapshot stands for the commands before it: whoever takes over the state after the first
/// `count` commands and applies the others ends with the store that all of them lead to.
pub proof fn law_snapshots_stand_for_their_commands(
    store: Map<Seq<char>, Seq<char>>,
    commands: Seq<Seq<u8>>,
    count: nat,
    snapshot: Seq<u8>,
)
    requires
        count <= commands.len(),
        restored(snapshot) == Some(applied_all(store, commands.take(count as int))),
    ensures
        applied_all(restored(snapshot)->0, commands.skip(count as int)) == applied_all(
            store,
            commands,
        ),
    decreases commands.len() - count,
{
    let rest = commands.skip(count as int);
    if rest.len() == 0 {
        assert(commands.take(count as int) =~= commands);
    } else {
        let shorter = commands.drop_last();
        assert(shorter.take(count as int) =~= commands.take(count as int));
        assert(rest.drop_last() =~= shorter.skip(count as int));
        law_snapshots_stand_for_their_commands(store, shorter, count, snapshot);
    }
}

proof fn lemma_remove(pairs: Seq<(Seq<char>, Seq<char>)>, i: int)
    requires
        distinct_keys(pairs),
        0 <= i < pairs.len(),
    ensures
        distinct_keys(pairs.remove(i)),
        pairs_map(pairs.remove(i)) == pairs_map(pairs).remove(pairs[i].0),
    decreases pairs.len(),
{
    let rest = pairs.remove(i);
    let key = pairs[i].0;
    assert(distinct_keys(rest)) by {
        assert forall|a: int, b: int| 0 <= a < b < rest.len() implies (#[trigger] rest[a]).0 != (
        #[trigger] rest[b]).0 by {
            let x = if a < i {
                a
            } else {
                a + 1
            };
            let y = if b < i {
                b
            } else {
                b + 1
            };
            assert(pairs[x].0 != pairs[y].0);
        }
    }
    let front = pairs.drop_last();
    if i == pairs.len() - 1 {
        assert(rest =~= front);
        lemma_pairs_map(front);
        assert(!pairs_map(front).dom().contains(key)) by {
            if pairs_map(front).dom().contains(key) {
                let j = choose|j: int| 0 <= j < front.len() && (#[trigger] front[j]).0 == key;
                assert(pairs[j].0 != pairs[i].0);
            }
        }
        assert(pairs_map(pairs).remove(key) =~= pairs_map(front));
    } else {
        lemma_remove(front, i);
        assert(rest.drop_last() =~= front.remove(i));
        assert(rest.last() == pairs.last());
        assert(pairs[i].0 != pairs[pairs.len() - 1].0);
        assert(pairs_map(rest) =~= pairs_map(pairs).remove(key));
    }
}

/// Whether two texts are equal.
fn same_text(a: &str, b: &str) -> (same: bool)
    ensures
        same <==> a@ == b@,
{
    a.to_owned() == b.to_owned()
}

impl StateMachine for KvStore {
    type Command = KvCommand;

    type Response = KvResponse;

    /// No key occurs twice.
    open spec fn wf(&self) -> bool {
        distinct_keys(pairs_view(self.pairs@))
    }

    /// Applies a command.
    fn apply(&mut self, command: KvCommand) -> (response: KvResponse)
        ensures
            final(self)@ == applied(old(self)@, command@),
            command@ matches CommandView::Put(key, value) ==> {
                &&& final(self)@.contains_pair(key, value)
                &&& final(self)@.remove(key) == old(self)@.remove(key)
            },
            command@ matches CommandView::Delete(key) ==> {
                &&& !final(self)@.dom().contains(key)
                &&& final(self)@ == old(self)@.remove(key)
            },
            command@ is Get ==> final(self)@ == old(self)@,
            match command@ {
                CommandView::Get(key) => match response {
                    KvResponse::Value(Some(value)) => old(self)@.contains_pair(key, value@),
                    KvResponse::Value(None) => !old(self)@.dom().contains(key),
                    KvResponse::Done => false,
                },
                _ => response is Done,
            },
    {
        match command {
            KvCommand::Get(key) => KvResponse::Value(self.get(key.as_str())),
            KvCommand::Put(key, value) => {
                self.insert(key, value);
                KvResponse::Done
            },
            KvCommand::Delete(key) => {
                self.remove(key.as_str());
                KvResponse::Done
            },
        }
    }
}

} // verus!
