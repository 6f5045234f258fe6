//! The binary form of what is stored and replicated, as the `postcard` crate writes it. A struct
//! has the form of the tuple of its fields, and a variant of an enum that of its number followed by
//! its fields, so everything is handed to `postcard` as tuples of plain values.
//!
//! What `postcard` makes of bytes that it did not write is not described here: it is the value of
//! the `decoded_*` functions.

use crate::config::{PersistedMetadata, Snapshot, SnapshotView};
use crate::types::{EntryView, LogEntry};
use vstd::prelude::*;
use vstd::utf8::encode_utf8;

verus! {

/// A number in groups of seven bits, the lowest ones first. All bytes but the last have their
/// highest bit set.
pub open spec fn varint(n: nat) -> Seq<u8>
    decreases n,
{
    if n < 128 {
        seq![n as u8]
    } else {
        seq![(n % 128 + 128) as u8] + varint(n / 128)
    }
}

/// A sequence of bytes: its length, and the bytes.
pub open spec fn blob_bytes(bytes: Seq<u8>) -> Seq<u8> {
    varint(bytes.len()) + bytes
}

/// A string: the length of its UTF-8 form, and that form.
pub open spec fn string_bytes(text: Seq<char>) -> Seq<u8> {
    blob_bytes(encode_utf8(text))
}

pub open spec fn entry_bytes(entry: EntryView) -> Seq<u8> {
    varint(entry.term as nat) + blob_bytes(entry.command)
}

pub open spec fn metadata_bytes(metadata: PersistedMetadata) -> Seq<u8> {
    varint(metadata.term as nat) + match metadata.voted_for {
        None => seq![0u8],
        Some(id) => seq![1u8] + varint(id as nat),
    }
}

pub open spec fn snapshot_bytes(snapshot: SnapshotView) -> Seq<u8> {
    varint(snapshot.last_included_index as nat) + varint(snapshot.last_included_term as nat)
        + blob_bytes(snapshot.data)
}

/// Pairs of strings without the number of pairs.
pub open spec fn bare_pairs_bytes(pairs: Seq<(Seq<char>, Seq<char>)>) -> Seq<u8>
    decreases pairs.len(),
{
    if pairs.len() == 0 {
        Seq::<u8>::empty()
    } else {
        bare_pairs_bytes(pairs.drop_last()) + string_bytes(pairs.last().0) + string_bytes(
            pairs.last().1,
        )
    }
}

pub open spec fn pairs_bytes(pairs: Seq<(Seq<char>, Seq<char>)>) -> Seq<u8> {
    varint(pairs.len()) + bare_pairs_bytes(pairs)
}

/// The values of a sequence of pairs of strings.
pub open spec fn pairs_view(pairs: Seq<(String, String)>) -> Seq<(Seq<char>, Seq<char>)> {
    pairs.map_values(|pair: (String, String)| (pair.0@, pair.1@))
}

/// What `postcard` reads as a term and a command.
pub uninterp spec fn decoded_entry(bytes: Seq<u8>) -> Option<(u64, Seq<u8>)>;

/// What `postcard` reads as a term and a vote.
pub uninterp spec fn decoded_metadata(bytes: Seq<u8>) -> Option<(u64, Option<u64>)>;

/// What `postcard` reads as an index, a term and data.
pub uninterp spec fn decoded_snapshot(bytes: Seq<u8>) -> Option<(u64, u64, Seq<u8>)>;

/// What `postcard` reads as pairs of strings.
pub uninterp spec fn decoded_pairs(bytes: Seq<u8>) -> Option<Seq<(Seq<char>, Seq<char>)>>;

/// What `postcard` reads as a variant with one string.
pub uninterp spec fn decoded_tag_key(bytes: Seq<u8>) -> Option<(u32, Seq<char>)>;

/// What `postcard` reads as a variant with two strings.
pub uninterp spec fn decoded_tag_pair(bytes: Seq<u8>) -> Option<(u32, Seq<char>, Seq<char>)>;

/// Calls `postcard::to_allocvec` on a term and a command. It never fails, since it writes to a
/// vector that grows, and gives the bytes that `varint` and `blob_bytes` describe.
/// `postcard::from_bytes` reads them back.
#[verifier::external_body]
fn write_entry(term: u64, command: &Vec<u8>) -> (bytes: Option<Vec<u8>>)
    ensures
        bytes is Some,
        bytes->0@ == varint(term as nat) + blob_bytes(command@),
        decoded_entry(bytes->0@) == Some((term, command@)),
{
    postcard::to_allocvec(&(term, command)).ok()
}

/// Calls `postcard::from_bytes` for a term and a command. What comes back depends on the bytes
/// alone.
#[verifier::external_body]
fn read_entry(bytes: &[u8]) -> (read: Option<(u64, Vec<u8>)>)
    ensures
        match read {
            Some(entry) => decoded_entry(bytes@) == Some((entry.0, entry.1@)),
            None => decoded_entry(bytes@) is None,
        },
{
    postcard::from_bytes::<(u64, Vec<u8>)>(bytes).ok()
}

/// Calls `postcard::to_allocvec` on a term and a vote. It never fails, since it writes to a vector
/// that grows, and gives the bytes that `metadata_bytes` describes. `postcard::from_bytes` reads
/// them back.
#[verifier::external_body]
fn write_metadata(term: u64, voted_for: Option<u64>) -> (bytes: Option<Vec<u8>>)
    ensures
        bytes is Some,
        bytes->0@ == metadata_bytes(PersistedMetadata { term, voted_for }),
        decoded_metadata(bytes->0@) == Some((term, voted_for)),
{
    postcard::to_allocvec(&(term, voted_for)).ok()
}

/// Calls `postcard::from_bytes` for a term and a vote. What comes back depends on the bytes alone,
/// and nothing is read from no bytes.
#[verifier::external_body]
fn read_metadata(bytes: &[u8]) -> (read: Option<(u64, Option<u64>)>)
    ensures
        read == decoded_metadata(bytes@),
        bytes@.len() == 0 ==> read is None,
{
    postcard::from_bytes::<(u64, Option<u64>)>(bytes).ok()
}

/// Calls `postcard::to_allocvec` on an index, a term and data. It never fails, since it writes to a
/// vector that grows, and gives the bytes that `varint` and `blob_bytes` describe.
/// `postcard::from_bytes` reads them back.
#[verifier::external_body]
fn write_snapshot(index: u64, term: u64, data: &Vec<u8>) -> (bytes: Option<Vec<u8>>)
    ensures
        bytes is Some,
        bytes->0@ == varint(index as nat) + varint(term as nat) + blob_bytes(data@),
        decoded_snapshot(bytes->0@) == Some((index, term, data@)),
{
    postcard::to_allocvec(&(index, term, data)).ok()
}

/// Calls `postcard::from_bytes` for an index, a term and data. What comes back depends on the bytes
/// alone, and nothing is read from no bytes.
#[verifier::external_body]
fn read_snapshot(bytes: &[u8]) -> (read: Option<(u64, u64, Vec<u8>)>)
    ensures
        match read {
            Some(snapshot) => decoded_snapshot(bytes@) == Some(
                (snapshot.0, snapshot.1, snapshot.2@),
            ),
            None => decoded_snapshot(bytes@) is None,
        },
        bytes@.len() == 0 ==> read is None,
{
    postcard::from_bytes::<(u64, u64, Vec<u8>)>(bytes).ok()
}

/// Calls `postcard::to_allocvec` on pairs of strings. It never fails, since it writes to a vector
/// that grows, and gives the bytes that `pairs_bytes` describes. `postcard::from_bytes` reads them
/// back.
#[verifier::external_body]
pub(crate) fn write_pairs(pairs: &Vec<(String, String)>) -> (bytes: Option<Vec<u8>>)
    ensures
        bytes is Some,
        bytes->0@ == pairs_bytes(pairs_view(pairs@)),
        decoded_pairs(bytes->0@) == Some(pairs_view(pairs@)),
{
    postcard::to_allocvec(pairs).ok()
}

/// Calls `postcard::from_bytes` for pairs of strings. What comes back depends on the bytes alone.
#[verifier::external_body]
pub(crate) fn read_pairs(bytes: &[u8]) -> (read: Option<Vec<(String, String)>>)
    ensures
        match read {
            Some(pairs) => decoded_pairs(bytes@) == Some(pairs_view(pairs@)),
            None => decoded_pairs(bytes@) is None,
        },
{
    postcard::from_bytes::<Vec<(String, String)>>(bytes).ok()
}

/// Calls `postcard::to_allocvec` on the number of a variant and its one string. It never fails,
/// since it writes to a vector that grows, and gives the bytes that `varint` and `string_bytes`
/// describe. `postcard::from_bytes` reads them back.
#[verifier::external_body]
pub(crate) fn write_tag_key(tag: u32, key: &str) -> (bytes: Option<Vec<u8>>)
    ensures
        bytes is Some,
        bytes->0@ == varint(tag as nat) + string_bytes(key@),
        decoded_tag_key(bytes->0@) == Some((tag, key@)),
{
    postcard::to_allocvec(&(tag, key)).ok()
}

/// Calls `postcard::from_bytes` for the number of a variant and one string. What comes back depends
/// on the bytes alone.
#[verifier::external_body]
pub(crate) fn read_tag_key(bytes: &[u8]) -> (read: Option<(u32, String)>)
    ensures
        match read {
            Some(variant) => decoded_tag_key(bytes@) == Some((variant.0, variant.1@)),
            None => decoded_tag_key(bytes@) is None,
        },
{
    postcard::from_bytes::<(u32, String)>(bytes).ok()
}

/// Calls `postcard::to_allocvec` on the number of a variant and its two strings. It never fails,
/// since it writes to a vector that grows, and gives the bytes that `varint` and `string_bytes`
/// describe. `postcard::from_bytes` reads them back, and stops after the first string where it is
/// asked for just that.
#[verifier::external_body]
pub(crate) fn write_tag_pair(tag: u32, key: &str, value: &str) -> (bytes: Option<Vec<u8>>)
    ensures
        bytes is Some,
        bytes->0@ == varint(tag as nat) + string_bytes(key@) + string_bytes(value@),
        decoded_tag_pair(bytes->0@) == Some((tag, key@, value@)),
        decoded_tag_key(bytes->0@) == Some((tag, key@)),
{
    postcard::to_allocvec(&(tag, key, value)).ok()
}

/// Calls `postcard::from_bytes` for the number of a variant and two strings. What comes back
/// depends on the bytes alone.
#[verifier::external_body]
pub(crate) fn read_tag_pair(bytes: &[u8]) -> (read: Option<(u32, String, String)>)
    ensures
        match read {
            Some(variant) => decoded_tag_pair(bytes@) == Some((variant.0, variant.1@, variant.2@)),
            None => decoded_tag_pair(bytes@) is None,
        },
{
    postcard::from_bytes::<(u32, String, String)>(bytes).ok()
}

/// The binary form of an entry, which `decode_entry` reads back.
pub fn encode_entry(entry: &LogEntry) -> (bytes: Option<Vec<u8>>)
    ensures
        bytes is Some,
        bytes->0@ == entry_bytes(entry@),
        entry_of(bytes->0@) == Some(entry@),
{
    write_entry(entry.term, &entry.command)
}

/// The entry that bytes stand for, if they do for one.
pub open spec fn entry_of(bytes: Seq<u8>) -> Option<EntryView> {
    match decoded_entry(bytes) {
        Some(entry) => Some(EntryView { term: entry.0, command: entry.1 }),
        None => None,
    }
}

/// Reads an entry.
pub fn decode_entry(bytes: &[u8]) -> (entry: Option<LogEntry>)
    ensures
        match entry {
            Some(entry) => entry_of(bytes@) == Some(entry@),
            None => entry_of(bytes@) is None,
        },
{
    match read_entry(bytes) {
        Some((term, command)) => Some(LogEntry { term, command }),
        None => None,
    }
}

/// The binary form of the term and the vote, which `decode_metadata` reads back.
pub fn encode_metadata(metadata: &PersistedMetadata) -> (bytes: Option<Vec<u8>>)
    ensures
        bytes is Some,
        bytes->0@ == metadata_bytes(*metadata),
        metadata_of(bytes->0@) == Some(*metadata),
{
    write_metadata(metadata.term, metadata.voted_for)
}

/// The term and the vote that bytes stand for, if they do for one.
pub open spec fn metadata_of(bytes: Seq<u8>) -> Option<PersistedMetadata> {
    match decoded_metadata(bytes) {
        Some(metadata) => Some(
            PersistedMetadata { term: metadata.0, voted_for: metadata.1 },
        ),
        None => None,
    }
}

/// Reads the term and the vote.
pub fn decode_metadata(bytes: &[u8]) -> (metadata: Option<PersistedMetadata>)
    ensures
        metadata == metadata_of(bytes@),
        bytes@.len() == 0 ==> metadata is None,
{
    match read_metadata(bytes) {
        Some((term, voted_for)) => Some(PersistedMetadata { term, voted_for }),
        None => None,
    }
}

/// The binary form of a snapshot, which `decode_snapshot` reads back.
pub fn encode_snapshot(snapshot: &Snapshot) -> (bytes: Option<Vec<u8>>)
    ensures
        bytes is Some,
        bytes->0@ == snapshot_bytes(snapshot@),
        snapshot_of(bytes->0@) == Some(snapshot@),
{
    write_snapshot(snapshot.last_included_index, snapshot.last_included_term, &snapshot.data)
}

/// The snapshot that bytes stand for, if they do for one.
pub open spec fn snapshot_of(bytes: Seq<u8>) -> Option<SnapshotView> {
    match decoded_snapshot(bytes) {
        Some(snapshot) => Some(
            SnapshotView {
                last_included_index: snapshot.0,
                last_included_term: snapshot.1,
                data: snapshot.2,
            },
        ),
        None => None,
    }
}

/// Reads a snapshot.
pub fn decode_snapshot(bytes: &[u8]) -> (snapshot: Option<Snapshot>)
    ensures
        match snapshot {
            Some(snapshot) => snapshot_of(bytes@) == Some(snapshot@),
            None => snapshot_of(bytes@) is None,
        },
        bytes@.len() == 0 ==> snapshot is None,
{
    match read_snapshot(bytes) {
        Some((last_included_index, last_included_term, data)) => Some(
            Snapshot { last_included_index, last_included_term, data },
        ),
        None => None,
    }
}

} // verus!
