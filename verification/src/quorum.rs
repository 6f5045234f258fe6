//! What a majority of the servers holds.

use crate::model::{holders, is_majority_index, majority_index};
use std::collections::HashMap;
use vstd::prelude::*;

verus! {

broadcast use vstd::std_specs::hash::group_hash_axioms;

/// An index above every one that some server is at has no holders left.
proof fn lemma_no_majority_above(match_index: Map<u64, u64>, own: u64, best: u64, above: u64)
    requires
        match_index.dom().finite(),
        above > best,
        own > best ==> 2 * holders(match_index, own, own) <= match_index.dom().len() + 1,
        forall|peer: u64| #[trigger]
            match_index.dom().contains(peer) && match_index[peer] > best ==> 2 * holders(
                match_index,
                own,
                match_index[peer],
            ) <= match_index.dom().len() + 1,
    ensures
        2 * holders(match_index, own, above) <= match_index.dom().len() + 1,
    decreases u64::MAX - above,
{
    let dom = match_index.dom();
    let here = dom.filter(|peer: u64| match_index[peer] >= above);
    if own == above {
    } else if exists|peer: u64| dom.contains(peer) && match_index[peer] == above {
    } else if above == u64::MAX {
        assert(here =~= Set::<u64>::empty());
    } else {
        let next = (above + 1) as u64;
        lemma_no_majority_above(match_index, own, best, next);
        assert(here =~= dom.filter(|peer: u64| match_index[peer] >= next));
    }
}

/// A majority index is unique.
pub proof fn lemma_majority_index(match_index: Map<u64, u64>, own: u64, index: u64)
    requires
        is_majority_index(match_index, own, index),
    ensures
        majority_index(match_index, own) == index,
{
    let chosen = majority_index(match_index, own);
    assert(is_majority_index(match_index, own, chosen));
    if chosen < index {
        assert(2 * holders(match_index, own, index) > match_index.dom().len() + 1);
    }
    if index < chosen {
        assert(2 * holders(match_index, own, chosen) > match_index.dom().len() + 1);
    }
}

/// The elements of a prefix, with the next one.
pub proof fn lemma_take_next(keys: Seq<u64>, i: int)
    requires
        0 <= i < keys.len(),
    ensures
        keys.take(i + 1).to_set() == keys.take(i).to_set().insert(keys[i]),
{
    let next = keys.take(i + 1);
    assert(next =~= keys.take(i).push(keys[i]));
    assert forall|x: u64|
        next.to_set().contains(x) == keys.take(i).to_set().insert(keys[i]).contains(x) by {
        if keys.take(i).contains(x) {
            let j = choose|j: int| 0 <= j < i && keys.take(i)[j] == x;
            assert(next[j] == x);
        }
        if x == keys[i] {
            assert(next[i] == x);
        }
    }
    assert(next.to_set() =~= keys.take(i).to_set().insert(keys[i]));
}

/// Counts the servers that hold every entry up to `level`, once `peer` is at `index`.
fn count_holders(
    match_index: &HashMap<u64, u64>,
    peer: u64,
    index: u64,
    own: u64,
    level: u64,
) -> (count: u128)
    requires
        match_index@.dom().finite(),
    ensures
        count == holders(match_index@.insert(peer, index), own, level),
        count <= u64::MAX + 2,
{
    let size: usize = match_index.len();
    let ghost all = match_index@.insert(peer, index);
    let ghost at_level = |other: u64| all[other] >= level;
    proof {
        if match_index@.dom().len() == 0 {
            assert(match_index@.dom() =~= Set::<u64>::empty());
        }
    }
    let mut count: u128 = 0;
    let ghost mut seen = Set::<u64>::empty();
    assert(seen.filter(at_level) =~= Set::<u64>::empty());
    for key in it: match_index.keys()
        invariant
            match_index@.dom().finite(),
            size == match_index@.dom().len(),
            it.seq().unref().to_set() == match_index@.dom(),
            it.seq().no_duplicates(),
            it.seq().len() == match_index@.dom().len(),
            all == match_index@.insert(peer, index),
            at_level == (|other: u64| all[other] >= level),
            seen == it.seq().unref().take(it.index() as int).to_set().remove(peer),
            seen.finite(),
            count == seen.filter(at_level).len(),
            count <= it.index() <= size,
            it.index() == size ==> seen == match_index@.dom().remove(peer),
    {
        let ghost before = seen;
        proof {
            let keys = it.seq().unref();
            let i = it.index() as int;
            assert(keys[i] == *key);
            assert(keys.contains(*key));
            assert(match_index@.dom().contains(*key));
            lemma_take_next(keys, i);
            assert(!keys.take(i).contains(*key)) by {
                if keys.take(i).contains(*key) {
                    let j = choose|j: int| 0 <= j < i && keys.take(i)[j] == *key;
                    assert(it.seq()[j] == it.seq()[i]);
                }
            }
            if *key != peer {
                seen = before.insert(*key);
                if at_level(*key) {
                    assert(seen.filter(at_level) =~= before.filter(at_level).insert(*key));
                } else {
                    assert(seen.filter(at_level) =~= before.filter(at_level));
                }
            }
            assert(seen =~= keys.take(i + 1).to_set().remove(peer));
            assert(i + 1 == size ==> keys.take(i + 1) =~= keys);
        }
        if *key != peer {
            let value: u64 = match match_index.get(key) {
                Some(value) => *value,
                None => 0,
            };
            if value >= level {
                count = count + 1;
            }
        }
    }
    proof {
        assert(all.dom() =~= seen.insert(peer));
        if index >= level {
            assert(all.dom().filter(at_level) =~= seen.filter(at_level).insert(peer));
        } else {
            assert(all.dom().filter(at_level) =~= seen.filter(at_level));
        }
    }
    if index >= level {
        count = count + 1;
    }
    if own >= level {
        count = count + 1;
    }
    count
}

/// Raises `best` to `level` where a majority holds `level`.
fn raise(
    match_index: &HashMap<u64, u64>,
    peer: u64,
    index: u64,
    own: u64,
    servers: u128,
    best: u64,
    level: u64,
) -> (raised: u64)
    requires
        match_index@.dom().finite(),
        servers == match_index@.insert(peer, index).dom().len() + 1,
        2 * holders(match_index@.insert(peer, index), own, best) > servers,
    ensures
        best <= raised,
        2 * holders(match_index@.insert(peer, index), own, raised) > servers,
        level > raised ==> 2 * holders(match_index@.insert(peer, index), own, level) <= servers,
{
    if level > best && 2 * count_holders(match_index, peer, index, own, level) > servers {
        level
    } else {
        best
    }
}

/// The highest index that more than half of the servers hold, once `peer` is at `index`. The
/// server itself is at `own`.
pub fn replicated_index(match_index: &HashMap<u64, u64>, peer: u64, index: u64, own: u64) -> (best:
    u64)
    requires
        match_index@.dom().finite(),
    ensures
        is_majority_index(match_index@.insert(peer, index), own, best),
        best == majority_index(match_index@.insert(peer, index), own),
{
    let ghost all = match_index@.insert(peer, index);
    let ghost dom = match_index@.dom();
    let size: usize = match_index.len();
    let servers: u128 = if match_index.contains_key(&peer) {
        size as u128 + 1
    } else {
        size as u128 + 2
    };
    assert(all.dom() =~= dom.insert(peer));
    assert(all.dom().filter(|other: u64| all[other] >= 0u64) =~= all.dom());
    let mut best: u64 = raise(match_index, peer, index, own, servers, 0, index);
    best = raise(match_index, peer, index, own, servers, best, own);
    proof {
        if dom.len() == 0 {
            assert(dom =~= Set::<u64>::empty());
        }
    }
    for key in it: match_index.keys()
        invariant
            dom.finite(),
            dom == match_index@.dom(),
            size == dom.len(),
            it.seq().unref().to_set() == dom,
            it.seq().len() == dom.len(),
            all == match_index@.insert(peer, index),
            servers == all.dom().len() + 1,
            2 * holders(all, own, best) > servers,
            index > best ==> 2 * holders(all, own, index) <= servers,
            own > best ==> 2 * holders(all, own, own) <= servers,
            forall|other: u64| #[trigger]
                it.seq().unref().take(it.index() as int).contains(other) && all[other] > best
                    ==> 2 * holders(all, own, all[other]) <= servers,
            it.index() == size ==> forall|other: u64| #[trigger]
                dom.contains(other) && all[other] > best ==> 2 * holders(all, own, all[other])
                    <= servers,
    {
        proof {
            let keys = it.seq().unref();
            let i = it.index() as int;
            assert(keys[i] == *key);
            assert(keys.contains(*key));
            assert(dom.contains(*key));
            lemma_take_next(keys, i);
            assert forall|other: u64| #[trigger] keys.take(i + 1).contains(other) implies keys.take(
                i,
            ).contains(other) || other == *key by {
                assert(keys.take(i + 1).to_set().contains(other));
            }
            assert(i + 1 == size ==> keys.take(i + 1) =~= keys);
            assert(i + 1 == size ==> forall|other: u64| #[trigger]
                dom.contains(other) ==> keys.take(i + 1).contains(other));
        }
        let value: u64 = match match_index.get(key) {
            Some(value) => *value,
            None => 0,
        };
        if *key != peer {
            best = raise(match_index, peer, index, own, servers, best, value);
        }
    }
    proof {
        assert forall|above: u64| above > best implies 2 * #[trigger] holders(all, own, above)
            <= servers by {
            lemma_no_majority_above(all, own, best, above);
        }
        lemma_majority_index(all, own, best);
    }
    best
}

} // verus!
