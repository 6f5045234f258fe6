//! What a storage that keeps its state in files writes to them and reads from them. Reading and
//! writing the files themselves is left to the caller.
//!
//! The term and the vote, and the snapshot, each have a file that is replaced as a whole: a
//! temporary file is written first and renamed afterwards. The log is a file of frames.

use crate::codec::{
    decode_metadata, decode_snapshot, encode_metadata, encode_snapshot, entry_bytes, entry_of,
    metadata_bytes, metadata_of, snapshot_bytes, snapshot_of,
};
use crate::config::{PersistedLogAddendum, PersistedMetadata, Snapshot};
use crate::frames::{
    cut_position, frames_before, frames_bytes, frames_of, frames_size, law_overwritten_logs,
};
use crate::storage::{addendum_frames, can_frame, can_number, decode_log, encode_addendum};
use crate::types::LogEntry;
use vstd::prelude::*;
use vstd::string::*;

verus! {

/// Why a file could not be written or read.
#[derive(Debug, Clone, Copy, PartialEq, Eq, Structural)]
pub enum FileError {
    DataNotWritten,
    DataNotRead,
    EntryNotWritten,
    EntryNotRead,
    SnapshotNotFound,
}

impl FileError {
    /// The error in words.
    pub open spec fn words(self) -> Seq<char> {
        match self {
            FileError::DataNotWritten => "Unable to serialize data"@,
            FileError::DataNotRead => "Error deserializing data"@,
            FileError::EntryNotWritten => "Unable to serialize log entry"@,
            FileError::EntryNotRead => "Deserialization error on LogEntry"@,
            FileError::SnapshotNotFound => "Snapshot not found"@,
        }
    }

    /// The error in words.
    pub fn text(&self) -> (text: &'static str)
        ensures
            text@ == self.words(),
    {
        match self {
            FileError::DataNotWritten => "Unable to serialize data",
            FileError::DataNotRead => "Error deserializing data",
            FileError::EntryNotWritten => "Unable to serialize log entry",
            FileError::EntryNotRead => "Deserialization error on LogEntry",
            FileError::SnapshotNotFound => "Snapshot not found",
        }
    }
}

/// The name of the temporary file for the file `name`.
pub fn temporary_name(name: &str) -> (temporary: String)
    ensures
        temporary@ == seq!['.'] + name@ + seq!['.', 't', 'm', 'p'],
{
    proof {
        reveal_strlit(".");
        reveal_strlit(".tmp");
    }
    let mut temporary = String::from_str(".");
    temporary.append(name);
    temporary.append(".tmp");
    assert(temporary@ =~= seq!['.'] + name@ + seq!['.', 't', 'm', 'p']);
    temporary
}

/// The contents of the file for the term and the vote.
pub fn metadata_file(metadata: &PersistedMetadata) -> (outcome: Result<Vec<u8>, FileError>)
    ensures
        outcome is Ok,
        outcome->Ok_0@ == metadata_bytes(*metadata),
        metadata_of(outcome->Ok_0@) == Some(*metadata),
{
    match encode_metadata(metadata) {
        Some(bytes) => Ok(bytes),
        None => Err(FileError::DataNotWritten),
    }
}

/// Reads the file for the term and the vote. Without a file there are none.
pub fn read_metadata_file(file: &Option<Vec<u8>>) -> (outcome: Result<
    Option<PersistedMetadata>,
    FileError,
>)
    ensures
        outcome == match *file {
            None => Ok(None),
            Some(bytes) => match metadata_of(bytes@) {
                Some(metadata) => Ok(Some(metadata)),
                None => Err(FileError::DataNotRead),
            },
        },
{
    match file {
        None => Ok(None),
        Some(bytes) => match decode_metadata(bytes.as_slice()) {
            Some(metadata) => Ok(Some(metadata)),
            None => Err(FileError::DataNotRead),
        },
    }
}

/// The contents of the file for the snapshot.
pub fn snapshot_file(snapshot: &Snapshot) -> (outcome: Result<Vec<u8>, FileError>)
    ensures
        outcome is Ok,
        outcome->Ok_0@ == snapshot_bytes(snapshot@),
        snapshot_of(outcome->Ok_0@) == Some(snapshot@),
{
    match encode_snapshot(snapshot) {
        Some(bytes) => Ok(bytes),
        None => Err(FileError::DataNotWritten),
    }
}

/// Reads the file for the snapshot. Without a file there is none.
pub fn read_snapshot_file(file: &Option<Vec<u8>>) -> (outcome: Result<Option<Snapshot>, FileError>)
    ensures
        outcome matches Ok(None) <==> file is None,
        outcome matches Ok(Some(snapshot)) ==> file is Some && snapshot_of(file->0@) == Some(
            snapshot@,
        ),
        outcome is Err <==> file is Some && snapshot_of(file->0@) is None,
        outcome matches Err(error) ==> error == FileError::DataNotRead,
{
    match file {
        None => Ok(None),
        Some(bytes) => match decode_snapshot(bytes.as_slice()) {
            Some(snapshot) => Ok(Some(snapshot)),
            None => Err(FileError::DataNotRead),
        },
    }
}

/// The state of the application in the file for the snapshot.
pub fn read_snapshot_data(file: &Option<Vec<u8>>) -> (outcome: Result<Vec<u8>, FileError>)
    ensures
        outcome matches Ok(data) ==> file is Some && snapshot_of(file->0@) is Some && data@
            == snapshot_of(file->0@)->0.data,
        outcome is Ok <==> file is Some && snapshot_of(file->0@) is Some,
        outcome matches Err(error) ==> error == if file is None {
            FileError::SnapshotNotFound
        } else {
            FileError::DataNotRead
        },
{
    match read_snapshot_file(file) {
        Ok(Some(snapshot)) => Ok(snapshot.data),
        Ok(None) => Err(FileError::SnapshotNotFound),
        Err(error) => Err(error),
    }
}

/// What becomes of the file for the log: it is cut after `keep` bytes, and `added` follows.
pub struct LogUpdate {
    pub keep: usize,
    pub added: Vec<u8>,
}

/// How entries get into the file for the log. A frame that is cut off at the end of the file goes
/// in any case.
pub fn log_update(file: &[u8], addendum: &PersistedLogAddendum) -> (outcome: Result<
    LogUpdate,
    FileError,
>)
    requires
        can_number(addendum@),
    ensures
        outcome is Ok,
        outcome matches Ok(update) ==> {
            &&& update.keep == frames_size(
                frames_before(frames_of(file@), addendum.start_index),
            )
            &&& update.keep <= file@.len()
            &&& update.added@ == frames_bytes(addendum_frames(addendum@))
            &&& can_frame(addendum@) ==> frames_of(file@.take(update.keep as int) + update.added@)
                == frames_before(frames_of(file@), addendum.start_index) + addendum_frames(
                addendum@,
            )
            &&& forall|i: int|
                0 <= i < addendum@.entries.len() ==> entry_of(
                    #[trigger] addendum_frames(addendum@)[i].payload,
                ) == Some(addendum@.entries[i])
        },
{
    match encode_addendum(addendum) {
        Some(added) => {
            let keep: usize = cut_position(file, addendum.start_index);
            proof {
                if can_frame(addendum@) {
                    law_overwritten_logs(file@, addendum.start_index, addendum_frames(addendum@));
                }
                assert forall|i: int| 0 <= i < addendum@.entries.len() implies entry_of(
                    #[trigger] addendum_frames(addendum@)[i].payload,
                ) == Some(addendum@.entries[i]) by {
                    assert(entry_of(entry_bytes(addendum@.entries[i])) is Some);
                }
            }
            Ok(LogUpdate { keep, added })
        },
        None => Err(FileError::EntryNotWritten),
    }
}

/// Reads the file for the log, up to the first frame that is cut off. Without a file there is no
/// log.
pub fn read_log_file(file: &Option<Vec<u8>>) -> (outcome: Result<Option<Vec<LogEntry>>, FileError>)
    ensures
        outcome matches Ok(None) <==> file is None,
        outcome matches Ok(Some(list)) ==> {
            &&& file is Some
            &&& list@.len() == frames_of(file->0@).len()
            &&& forall|i: int|
                0 <= i < list@.len() ==> entry_of(#[trigger] frames_of(file->0@)[i].payload)
                    == Some(list@[i]@)
        },
        outcome is Err <==> file is Some && exists|i: int|
            0 <= i < frames_of(file->0@).len() && entry_of(
                #[trigger] frames_of(file->0@)[i].payload,
            ) is None,
        outcome matches Err(error) ==> error == FileError::EntryNotRead,
{
    match file {
        None => Ok(None),
        Some(bytes) => match decode_log(bytes.as_slice()) {
            Some(entries) => Ok(Some(entries)),
            None => Err(FileError::EntryNotRead),
        },
    }
}

} // verus!
