//! Stable storage: what an implementation promises, and one that keeps everything in memory.

use crate::codec::{
    decode_entry, decode_metadata, decode_snapshot, encode_entry, encode_metadata, encode_snapshot,
    entry_bytes, entry_of, metadata_bytes, metadata_of, snapshot_bytes, snapshot_of,
};
use crate::config::{
    AddendumView, PersistedLogAddendum, PersistedMetadata, Snapshot, SnapshotView,
};
use crate::frames::{
    cut_position, find_frame, frames_before, frames_bytes, frames_from, frames_of, frames_size,
    law_overwritten_logs, numbered, push_frame, Frame,
};
use crate::types::{entries_view, EntryView, LogEntry};
use vstd::prelude::*;
use vstd::slice::slice_subrange;

verus! {

/// Why stable storage could not do its work.
#[derive(Debug, Clone, Copy, PartialEq, Eq, Structural)]
pub enum StorageError {
    EntryNotWritten,
    SnapshotNotWritten,
    MetadataNotRead,
    NotRead,
}

impl StorageError {
    /// The error in words.
    pub open spec fn words(self) -> Seq<char> {
        match self {
            StorageError::EntryNotWritten => "Could not serialize"@,
            StorageError::SnapshotNotWritten => "Could not serialize snapshot"@,
            StorageError::MetadataNotRead => "No metadata"@,
            StorageError::NotRead => "Unable to deserialize"@,
        }
    }

    /// The error in words.
    pub fn text(&self) -> (text: &'static str)
        ensures
            text@ == self.words(),
    {
        match self {
            StorageError::EntryNotWritten => "Could not serialize",
            StorageError::SnapshotNotWritten => "Could not serialize snapshot",
            StorageError::MetadataNotRead => "No metadata",
            StorageError::NotRead => "Unable to deserialize",
        }
    }
}

/// An entry as the log on stable storage holds it.
pub struct IndexedEntry {
    pub index: u64,
    pub entry: EntryView,
}

/// The entries before the first one with the given index.
pub open spec fn log_before(log: Seq<IndexedEntry>, index: u64) -> Seq<IndexedEntry>
    decreases log.len(),
{
    if log.len() == 0 || log[0].index == index {
        Seq::<IndexedEntry>::empty()
    } else {
        seq![log[0]] + log_before(log.skip(1), index)
    }
}

/// The entries of an addendum with their indices.
pub open spec fn indexed(addendum: AddendumView) -> Seq<IndexedEntry> {
    Seq::new(
        addendum.entries.len(),
        |i: int|
            IndexedEntry {
                index: (addendum.start_index + i) as u64,
                entry: addendum.entries[i],
            },
    )
}

/// Whether the indices of the entries, and the one after them, are numbers of 64 bits.
pub open spec fn can_number(addendum: AddendumView) -> bool {
    addendum.start_index + addendum.entries.len() <= u64::MAX
}

/// Whether the length of each entry's binary form is a number of 32 bits.
pub open spec fn can_frame(addendum: AddendumView) -> bool {
    forall|i: int|
        0 <= i < addendum.entries.len() ==> entry_bytes(#[trigger] addendum.entries[i]).len()
            <= u32::MAX
}

/// The entries without their indices.
pub open spec fn plain(log: Seq<IndexedEntry>) -> Seq<EntryView> {
    log.map_values(|item: IndexedEntry| item.entry)
}

/// A place that keeps the term and the vote, the log and the last snapshot. What has been stored
/// is durable when the call returns.
pub trait Storage {
    /// What holds of the storage between two calls.
    spec fn wf(&self) -> bool;

    spec fn stored_metadata(&self) -> Option<PersistedMetadata>;

    spec fn stored_log(&self) -> Seq<IndexedEntry>;

    /// Whether a log was ever written. It may have been cleared since.
    spec fn log_exists(&self) -> bool;

    spec fn stored_snapshot(&self) -> Option<SnapshotView>;

    /// Replaces the term and the vote.
    fn store_metadata(&mut self, metadata: PersistedMetadata) -> (outcome: Result<(), StorageError>)
        requires
            old(self).wf(),
        ensures
            final(self).wf(),
            outcome is Ok ==> final(self).stored_metadata() == Some(metadata),
            final(self).stored_log() == old(self).stored_log(),
            final(self).log_exists() == old(self).log_exists(),
            final(self).stored_snapshot() == old(self).stored_snapshot(),
    ;

    /// The term and the vote, or `None` on the first start.
    fn restore_metadata(&self) -> (outcome: Result<Option<PersistedMetadata>, StorageError>)
        requires
            self.wf(),
        ensures
            outcome matches Ok(metadata) ==> metadata == self.stored_metadata(),
    ;

    /// Adds entries at the end of the log. If there is an entry at `addendum.start_index` already,
    /// they replace everything from there on.
    fn store_log_entries(&mut self, addendum: PersistedLogAddendum) -> (outcome: Result<
        (),
        StorageError,
    >)
        requires
            old(self).wf(),
            can_number(addendum@),
            can_frame(addendum@),
        ensures
            final(self).wf(),
            outcome is Ok ==> final(self).stored_log() == log_before(
                old(self).stored_log(),
                addendum.start_index,
            ) + indexed(addendum@),
            outcome is Ok ==> final(self).log_exists(),
            final(self).stored_metadata() == old(self).stored_metadata(),
            final(self).stored_snapshot() == old(self).stored_snapshot(),
    ;

    /// The log, which may be empty, or `None` if none was ever written.
    fn restore_log_entries(&self) -> (outcome: Result<Option<Vec<LogEntry>>, StorageError>)
        requires
            self.wf(),
        ensures
            outcome matches Ok(Some(entries)) ==> entries_view(entries@) == plain(
                self.stored_log(),
            ),
            outcome matches Ok(entries) ==> (entries is None <==> !self.log_exists()),
            outcome matches Ok(None) ==> self.stored_log().len() == 0,
    ;

    /// Replaces the snapshot.
    fn store_snapshot(&mut self, snapshot: Snapshot) -> (outcome: Result<(), StorageError>)
        requires
            old(self).wf(),
        ensures
            final(self).wf(),
            outcome is Ok ==> final(self).stored_snapshot() == Some(snapshot@),
            final(self).stored_metadata() == old(self).stored_metadata(),
            final(self).stored_log() == old(self).stored_log(),
            final(self).log_exists() == old(self).log_exists(),
    ;

    /// Clears the log. One that exists goes on to exist, with nothing in it.
    fn truncate_log(&mut self) -> (outcome: Result<(), StorageError>)
        requires
            old(self).wf(),
        ensures
            final(self).wf(),
            outcome is Ok ==> final(self).stored_log().len() == 0,
            final(self).log_exists() == old(self).log_exists(),
            final(self).stored_metadata() == old(self).stored_metadata(),
            final(self).stored_snapshot() == old(self).stored_snapshot(),
    ;

    /// The state of the application in the snapshot. It is an error if there is no snapshot.
    fn retrieve_snapshot_bytes(&self) -> (outcome: Result<Vec<u8>, StorageError>)
        requires
            self.wf(),
        ensures
            outcome is Ok ==> self.stored_snapshot() is Some,
            outcome matches Ok(data) ==> data@ == self.stored_snapshot()->0.data,
    ;

    /// The snapshot, or `None` if there is none.
    fn restore_snapshot(&self) -> (outcome: Result<Option<Snapshot>, StorageError>)
        requires
            self.wf(),
        ensures
            outcome matches Ok(Some(snapshot)) ==> self.stored_snapshot() == Some(snapshot@),
            outcome matches Ok(None) ==> self.stored_snapshot() is None,
    ;
}

// ------------------------------------------------------------------------- the log as frames

/// The frames of an addendum.
pub open spec fn addendum_frames(addendum: AddendumView) -> Seq<Frame> {
    numbered(addendum.start_index, addendum.entries.map_values(|entry: EntryView| entry_bytes(entry)))
}

/// The bytes that an addendum adds to the log.
pub fn encode_addendum(addendum: &PersistedLogAddendum) -> (bytes: Option<Vec<u8>>)
    requires
        can_number(addendum@),
    ensures
        bytes is Some,
        bytes->0@ == frames_bytes(addendum_frames(addendum@)),
        forall|i: int|
            0 <= i < addendum@.entries.len() ==> entry_of(
                entry_bytes(#[trigger] addendum@.entries[i]),
            ) == Some(addendum@.entries[i]),
{
    let ghost all = addendum_frames(addendum@);
    let mut bytes: Vec<u8> = Vec::new();
    let mut i: usize = 0;
    assert(all.take(0) =~= Seq::<Frame>::empty());
    while i < addendum.entries.len()
        invariant
            can_number(addendum@),
            all == addendum_frames(addendum@),
            all.len() == addendum.entries.len(),
            0 <= i <= addendum.entries.len(),
            bytes@ == frames_bytes(all.take(i as int)),
            forall|j: int|
                0 <= j < i ==> entry_of(entry_bytes(#[trigger] addendum@.entries[j])) == Some(
                    addendum@.entries[j],
                ),
        decreases addendum.entries.len() - i,
    {
        let index: u64 = addendum.start_index + i as u64;
        match encode_entry(&addendum.entries[i]) {
            Some(payload) => {
                push_frame(&mut bytes, index, &payload);
                proof {
                    assert(addendum@.entries[i as int] == addendum.entries@[i as int]@);
                    let frame = Frame { index, payload: payload@ };
                    assert(all[i as int] == frame);
                    assert(all.take(i + 1).drop_last() =~= all.take(i as int));
                    assert(all.take(i + 1).last() == frame);
                }
            },
            None => {
                return None;
            },
        }
        i = i + 1;
    }
    assert(all.take(i as int) =~= all);
    Some(bytes)
}

/// Reads the entries of a log, up to the first frame that is cut off.
pub fn decode_log(bytes: &[u8]) -> (entries: Option<Vec<LogEntry>>)
    ensures
        entries matches Some(list) ==> {
            &&& list@.len() == frames_of(bytes@).len()
            &&& forall|i: int|
                0 <= i < list@.len() ==> entry_of(#[trigger] frames_of(bytes@)[i].payload) == Some(
                    list@[i]@,
                )
        },
        entries is None ==> exists|i: int|
            0 <= i < frames_of(bytes@).len() && entry_of(
                #[trigger] frames_of(bytes@)[i].payload,
            ) is None,
{
    let ghost all = frames_of(bytes@);
    let mut entries: Vec<LogEntry> = Vec::new();
    let mut pos: usize = 0;
    assert(all.skip(0) =~= all);
    loop
        invariant
            all == frames_of(bytes@),
            pos <= bytes@.len(),
            entries@.len() <= all.len(),
            frames_from(bytes@, pos as int) == all.skip(entries@.len() as int),
            forall|i: int|
                0 <= i < entries@.len() ==> entry_of(#[trigger] all[i].payload) == Some(
                    entries@[i]@,
                ),
        ensures
            entries@.len() == all.len(),
            forall|i: int|
                0 <= i < entries@.len() ==> entry_of(#[trigger] all[i].payload) == Some(
                    entries@[i]@,
                ),
        decreases bytes@.len() - pos,
    {
        let ghost n = entries@.len() as int;
        let ghost rest = frames_from(bytes@, pos as int);
        match find_frame(bytes, pos) {
            None => {
                assert(rest.len() == 0);
                break;
            },
            Some(frame) => {
                assert(all.skip(n)[0] == rest[0]);
                assert(rest.skip(1) =~= frames_from(bytes@, frame.next as int));
                assert(all.skip(n + 1) =~= all.skip(n).skip(1));
                let payload = slice_subrange(bytes, frame.payload_start, frame.next);
                assert(payload@ == all[n].payload);
                match decode_entry(payload) {
                    Some(entry) => {
                        entries.push(entry);
                    },
                    None => {
                        return None;
                    },
                }
                pos = frame.next;
            },
        }
    }
    Some(entries)
}

// ------------------------------------------------------------------------------------- in memory

/// Reads the term and the vote from a buffer. An empty one stands for none.
pub fn metadata_from(buffer: &[u8]) -> (outcome: Result<Option<PersistedMetadata>, StorageError>)
    ensures
        outcome == match metadata_of(buffer@) {
            Some(metadata) => Ok(Some(metadata)),
            None => if buffer@.len() == 0 {
                Ok(None)
            } else {
                Err(StorageError::MetadataNotRead)
            },
        },
        buffer@.len() == 0 ==> outcome == Ok::<Option<PersistedMetadata>, StorageError>(None),
{
    match decode_metadata(buffer) {
        Some(metadata) => Ok(Some(metadata)),
        None => if buffer.len() == 0 {
            // there is no metadata yet
            Ok(None)
        } else {
            Err(StorageError::MetadataNotRead)
        },
    }
}

/// Reads a snapshot from a buffer.
pub fn snapshot_from(buffer: &[u8]) -> (outcome: Result<Snapshot, StorageError>)
    ensures
        match outcome {
            Ok(snapshot) => snapshot_of(buffer@) == Some(snapshot@),
            Err(error) => snapshot_of(buffer@) is None && error == StorageError::NotRead,
        },
        buffer@.len() == 0 ==> outcome is Err,
{
    match decode_snapshot(buffer) {
        Some(snapshot) => Ok(snapshot),
        None => Err(StorageError::NotRead),
    }
}

/// Reads a log from a buffer, if one was ever written to it.
pub fn log_from(written: bool, buffer: &[u8]) -> (outcome: Result<
    Option<Vec<LogEntry>>,
    StorageError,
>)
    ensures
        outcome is Err <==> written && exists|i: int|
            0 <= i < frames_of(buffer@).len() && entry_of(
                #[trigger] frames_of(buffer@)[i].payload,
            ) is None,
        outcome matches Err(error) ==> error == StorageError::NotRead,
        outcome matches Ok(entries) ==> (entries is None <==> !written),
        outcome matches Ok(Some(list)) ==> {
            &&& list@.len() == frames_of(buffer@).len()
            &&& forall|i: int|
                0 <= i < list@.len() ==> entry_of(#[trigger] frames_of(buffer@)[i].payload) == Some(
                    list@[i]@,
                )
        },
{
    if !written {
        return Ok(None);
    }
    match decode_log(buffer) {
        Some(entries) => Ok(Some(entries)),
        None => Err(StorageError::NotRead),
    }
}

/// Storage that lasts as long as the process does.
pub struct InMemoryStorage {
    pub metadata: Vec<u8>,
    pub log_entries: Vec<u8>,
    /// Whether a log was ever written.
    pub log_written: bool,
    pub snapshot: Vec<u8>,
}

pub open spec fn read_frame() -> spec_fn(Frame) -> IndexedEntry {
    |frame: Frame| IndexedEntry { index: frame.index, entry: entry_of(frame.payload)->0 }
}

/// The entries that frames stand for.
pub open spec fn frames_log(frames: Seq<Frame>) -> Seq<IndexedEntry> {
    frames.map_values(read_frame())
}

proof fn lemma_log_before(frames: Seq<Frame>, index: u64)
    ensures
        frames_log(frames_before(frames, index)) == log_before(frames_log(frames), index),
    decreases frames.len(),
{
    let log = frames_log(frames);
    if frames.len() == 0 || frames[0].index == index {
        assert(frames_log(frames_before(frames, index)) =~= log_before(log, index));
    } else {
        lemma_log_before(frames.skip(1), index);
        assert(frames_log(frames.skip(1)) =~= log.skip(1));
        assert(frames_log(seq![frames[0]] + frames_before(frames.skip(1), index)) =~= seq![log[0]]
            + frames_log(frames_before(frames.skip(1), index)));
    }
}

impl InMemoryStorage {
    /// Storage with nothing in it.
    pub fn new() -> (storage: Self)
        ensures
            storage.wf(),
            storage.stored_metadata() is None,
            storage.stored_log().len() == 0,
            !storage.log_exists(),
            storage.stored_snapshot() is None,
    {
        let storage = InMemoryStorage {
            metadata: Vec::new(),
            log_entries: Vec::new(),
            log_written: false,
            snapshot: Vec::new(),
        };
        storage
    }
}

impl Storage for InMemoryStorage {
    open spec fn wf(&self) -> bool {
        let frames = frames_of(self.log_entries@);
        &&& self.metadata@.len() == 0 || metadata_of(self.metadata@) is Some
        &&& self.snapshot@.len() == 0 || snapshot_of(self.snapshot@) is Some
        &&& !self.log_written ==> self.log_entries@.len() == 0
        &&& frames_size(frames) == self.log_entries@.len()
        &&& forall|i: int| 0 <= i < frames.len() ==> entry_of(#[trigger] frames[i].payload) is Some
    }

    open spec fn stored_metadata(&self) -> Option<PersistedMetadata> {
        if self.metadata@.len() == 0 {
            None
        } else {
            metadata_of(self.metadata@)
        }
    }

    open spec fn stored_log(&self) -> Seq<IndexedEntry> {
        frames_log(frames_of(self.log_entries@))
    }

    open spec fn log_exists(&self) -> bool {
        self.log_written
    }

    open spec fn stored_snapshot(&self) -> Option<SnapshotView> {
        if self.snapshot@.len() == 0 {
            None
        } else {
            snapshot_of(self.snapshot@)
        }
    }

    fn store_metadata(&mut self, metadata: PersistedMetadata) -> (outcome: Result<(), StorageError>)
        ensures
            outcome is Ok,
            final(self).metadata@ == metadata_bytes(metadata),
    {
        self.metadata = encode_metadata(&metadata).unwrap();
        Ok(())
    }

    fn restore_metadata(&self) -> (outcome: Result<Option<PersistedMetadata>, StorageError>)
        ensures
            outcome is Ok,
    {
        metadata_from(self.metadata.as_slice())
    }

    fn store_log_entries(&mut self, addendum: PersistedLogAddendum) -> (outcome: Result<
        (),
        StorageError,
    >)
        ensures
            outcome is Ok,
    {
        let start: u64 = addendum.start_index;
        match encode_addendum(&addendum) {
            Some(mut added) => {
                let at: usize = cut_position(self.log_entries.as_slice(), start);
                self.log_entries.truncate(at);
                self.log_entries.append(&mut added);
                self.log_written = true;
                proof {
                    let before = old(self).log_entries@;
                    let new = addendum_frames(addendum@);
                    let kept = frames_before(frames_of(before), start);
                    law_overwritten_logs(before, start, new);
                    lemma_log_before(frames_of(before), start);
                    assert(self.log_entries@ =~= before.take(at as int) + frames_bytes(new));
                    assert(frames_log(kept + new) =~= frames_log(kept) + indexed(addendum@));
                    assert forall|i: int| 0 <= i < (kept + new).len() implies entry_of(
                        #[trigger] (kept + new)[i].payload,
                    ) is Some by {
                        if i < kept.len() {
                            assert(kept[i] == frames_of(before)[i]);
                        } else {
                            let j = i - kept.len();
                            assert(entry_of(entry_bytes(addendum@.entries[j])) is Some);
                        }
                    }
                }
                Ok(())
            },
            None => Err(StorageError::EntryNotWritten),
        }
    }

    fn restore_log_entries(&self) -> (outcome: Result<Option<Vec<LogEntry>>, StorageError>)
        ensures
            outcome is Ok,
    {
        let outcome = log_from(self.log_written, self.log_entries.as_slice());
        proof {
            if let Ok(Some(entries)) = &outcome {
                assert(entries_view(entries@) =~= plain(self.stored_log()));
            }
        }
        outcome
    }

    fn store_snapshot(&mut self, snapshot: Snapshot) -> (outcome: Result<(), StorageError>)
        ensures
            outcome is Ok,
            final(self).snapshot@ == snapshot_bytes(snapshot@),
    {
        match encode_snapshot(&snapshot) {
            Some(bytes) => {
                self.snapshot = bytes;
                Ok(())
            },
            None => Err(StorageError::SnapshotNotWritten),
        }
    }

    fn truncate_log(&mut self) -> (outcome: Result<(), StorageError>)
        ensures
            outcome is Ok,
            final(self).log_entries@.len() == 0,
    {
        self.log_entries.clear();
        Ok(())
    }

    fn retrieve_snapshot_bytes(&self) -> (outcome: Result<Vec<u8>, StorageError>)
        ensures
            outcome is Ok <==> self.stored_snapshot() is Some,
            outcome matches Err(error) ==> error == StorageError::NotRead,
    {
        match snapshot_from(self.snapshot.as_slice()) {
            Ok(snapshot) => Ok(snapshot.data),
            Err(error) => Err(error),
        }
    }

    fn restore_snapshot(&self) -> (outcome: Result<Option<Snapshot>, StorageError>)
        ensures
            outcome is Ok,
    {
        if self.snapshot.len() == 0 {
            return Ok(None);
        }
        match snapshot_from(self.snapshot.as_slice()) {
            Ok(snapshot) => Ok(Some(snapshot)),
            Err(error) => Err(error),
        }
    }
}

} // verus!
