//! Storage in memory, and what goes into the files of a storage on disk.

use ferris_ferry::codec::{decode_entry, decode_metadata, encode_entry, encode_metadata};
use ferris_ferry::config::{PersistedLogAddendum, PersistedMetadata, Snapshot};
use ferris_ferry::files::{
    log_update, metadata_file, read_log_file, read_metadata_file, read_snapshot_data,
    read_snapshot_file, snapshot_file, temporary_name, FileError,
};
use ferris_ferry::frames::{cut_position, find_frame, push_frame};
use ferris_ferry::storage::{
    decode_log, log_from, metadata_from, snapshot_from, InMemoryStorage, Storage, StorageError,
};
use ferris_ferry::types::LogEntry;

fn make_log_entry(term: u64, command: &str) -> LogEntry {
    LogEntry {
        term,
        command: command.as_bytes().to_vec(),
    }
}

#[test]
fn test_store_metadata() {
    let mut s = InMemoryStorage::new();
    let res = s.store_metadata(PersistedMetadata {
        term: 1,
        voted_for: Some(1),
    });
    assert!(res.is_ok());

    // check that it deserializes back into PersistedMetadata
    {
        let out: PersistedMetadata = decode_metadata(s.metadata.as_slice()).unwrap();
        assert_eq!(out.term, 1);
        assert_eq!(out.voted_for, Some(1));
    }

    // check it works with a None variant on voted_for
    s.store_metadata(PersistedMetadata {
        term: 2,
        voted_for: None,
    })
    .unwrap();

    let out: PersistedMetadata = decode_metadata(s.metadata.as_slice()).unwrap();
    assert_eq!(out.term, 2);
    assert_eq!(out.voted_for, None);
}

#[test]
fn store_and_restore_metadata() {
    // test restore_* methods with a full loop
    let mut s = InMemoryStorage::new();
    let metadata = PersistedMetadata {
        term: 1,
        voted_for: Some(2),
    };

    s.store_metadata(metadata.clone()).unwrap();

    let compare = s.restore_metadata().unwrap().unwrap();

    assert_eq!(metadata.term, compare.term);
    assert_eq!(metadata.voted_for, compare.voted_for);
}

#[test]
fn store_and_restore_log() {
    let mut s = InMemoryStorage::new();
    let entries = vec![make_log_entry(1, "CMD1"), make_log_entry(1, "CMD2")];
    let addendum = PersistedLogAddendum {
        start_index: 1,
        entries: entries.clone(),
    };

    s.store_log_entries(addendum.clone()).unwrap();
    assert!(!s.log_entries.is_empty());
    let compare = s.restore_log_entries().unwrap().unwrap();

    assert_eq!(compare, entries);
}

#[test]
fn test_overwrite_log() {
    // build out the log with 3 entries and instruct to overwrite starting at index 2, then
    // check restore gives those new entries
    let mut s = InMemoryStorage::new();
    let initial_entries = vec![
        make_log_entry(1, "CMD1"),
        make_log_entry(1, "CMD2"),
        make_log_entry(1, "CMD3"),
    ];
    let addendum = PersistedLogAddendum {
        start_index: 1,
        entries: initial_entries,
    };

    s.store_log_entries(addendum).unwrap();
    let overwrite = PersistedLogAddendum {
        start_index: 2,
        entries: vec![make_log_entry(2, "CMD2_MOD"), make_log_entry(2, "CMD3_MOD")],
    };
    s.store_log_entries(overwrite).unwrap();

    let out = s.restore_log_entries().unwrap().unwrap();
    assert_eq!(
        out,
        vec![
            make_log_entry(1, "CMD1"),
            make_log_entry(2, "CMD2_MOD"),
            make_log_entry(2, "CMD3_MOD")
        ]
    );
}

#[test]
fn store_and_restore_snapshot() {
    let mut s = InMemoryStorage::new();
    let snapshot = Snapshot {
        last_included_index: 100,
        last_included_term: 2,
        data: "SNAPSHOT BYTES".as_bytes().to_vec(),
    };
    s.store_snapshot(snapshot.clone()).unwrap();

    assert!(!s.snapshot.is_empty());

    let compare = s.restore_snapshot().unwrap().unwrap();
    assert_eq!(snapshot.last_included_index, compare.last_included_index);
    assert_eq!(snapshot.last_included_term, compare.last_included_term);
    assert_eq!(snapshot.data, compare.data);
}

#[test]
fn retrieve_snapshot_bytes() {
    let mut s = InMemoryStorage::new();
    let snapshot = Snapshot {
        last_included_index: 100,
        last_included_term: 2,
        data: "SNAPSHOT BYTES".as_bytes().to_vec(),
    };
    s.store_snapshot(snapshot).unwrap();

    let bytes = s.retrieve_snapshot_bytes().unwrap();
    assert_eq!(bytes, "SNAPSHOT BYTES".as_bytes().to_vec());
}

#[test]
fn truncate_log() {
    let mut s = InMemoryStorage::new();
    let entries = vec![make_log_entry(1, "CMD1"), make_log_entry(1, "CMD2")];
    let addendum = PersistedLogAddendum {
        start_index: 1,
        entries: entries.clone(),
    };
    s.store_log_entries(addendum).unwrap();

    assert!(!s.log_entries.is_empty());
    s.truncate_log().unwrap();
    assert!(s.log_entries.is_empty());
}

#[test]
fn test_on_empty() {
    let s = InMemoryStorage::new();
    assert!(s.restore_metadata().unwrap().is_none());
    assert!(s.restore_log_entries().unwrap().is_none());
    assert!(s.restore_snapshot().unwrap().is_none());
}

#[test]
fn a_log_that_was_cleared_exists_and_is_empty() {
    let mut s = InMemoryStorage::new();
    assert_eq!(s.restore_log_entries(), Ok(None));
    // clearing what was never written does not make a log
    s.truncate_log().unwrap();
    assert_eq!(s.restore_log_entries(), Ok(None));
    s.store_log_entries(PersistedLogAddendum {
        start_index: 1,
        entries: vec![LogEntry {
            term: 1,
            command: vec![7],
        }],
    })
    .unwrap();
    s.truncate_log().unwrap();
    assert_eq!(s.restore_log_entries(), Ok(Some(vec![])));
    // the rest of the storage has nothing to do with it
    s.store_metadata(PersistedMetadata {
        term: 1,
        voted_for: None,
    })
    .unwrap();
    assert_eq!(s.restore_log_entries(), Ok(Some(vec![])));
}

#[test]
fn an_empty_storage_has_no_snapshot_to_send() {
    let s = InMemoryStorage::new();
    assert_eq!(s.retrieve_snapshot_bytes(), Err(StorageError::NotRead));
}

#[test]
fn unreadable_buffers_are_reported() {
    // a number that never ends
    let endless = [0xffu8; 11];
    assert_eq!(
        metadata_from(&endless),
        Err(StorageError::MetadataNotRead)
    );
    assert!(matches!(
        snapshot_from(&endless),
        Err(StorageError::NotRead)
    ));
    let mut log: Vec<u8> = Vec::new();
    push_frame(&mut log, 1, &endless.to_vec());
    assert!(matches!(log_from(true, &log), Err(StorageError::NotRead)));
    assert_eq!(metadata_from(&[]), Ok(None));
    assert!(matches!(log_from(false, &[]), Ok(None)));
    assert!(matches!(log_from(true, &[]), Ok(Some(list)) if list.is_empty()));
}

#[test]
fn storage_errors_in_words() {
    assert_eq!(StorageError::EntryNotWritten.text(), "Could not serialize");
    assert_eq!(
        StorageError::SnapshotNotWritten.text(),
        "Could not serialize snapshot"
    );
    assert_eq!(StorageError::MetadataNotRead.text(), "No metadata");
    assert_eq!(StorageError::NotRead.text(), "Unable to deserialize");
    assert_eq!(FileError::DataNotWritten.text(), "Unable to serialize data");
    assert_eq!(FileError::DataNotRead.text(), "Error deserializing data");
    assert_eq!(
        FileError::EntryNotWritten.text(),
        "Unable to serialize log entry"
    );
    assert_eq!(
        FileError::EntryNotRead.text(),
        "Deserialization error on LogEntry"
    );
    assert_eq!(FileError::SnapshotNotFound.text(), "Snapshot not found");
}

/// The files of a storage, as they would be on disk.
struct Directory {
    metadata: Option<Vec<u8>>,
    log: Option<Vec<u8>>,
    snapshot: Option<Vec<u8>>,
}

impl Directory {
    fn new() -> Self {
        Directory {
            metadata: None,
            log: None,
            snapshot: None,
        }
    }

    fn store_log_entries(&mut self, start_index: u64, entries: Vec<LogEntry>) {
        let mut file = self.log.take().unwrap_or_default();
        let addendum = PersistedLogAddendum {
            start_index,
            entries,
        };
        let update = log_update(&file, &addendum).unwrap();
        file.truncate(update.keep);
        file.extend(update.added);
        self.log = Some(file);
    }

    fn restore_log_entries(&self) -> Option<Vec<LogEntry>> {
        read_log_file(&self.log).unwrap()
    }
}

#[test]
fn test_atomic_serialization() {
    // choosing to use metadata but this mostly tests how a file is replaced
    let mut dir = Directory::new();
    let metadata = PersistedMetadata {
        term: 1,
        voted_for: None,
    };
    assert_eq!(temporary_name("metadata"), ".metadata.tmp");
    dir.metadata = Some(metadata_file(&metadata).unwrap());
    // restore the metadata
    let m = read_metadata_file(&dir.metadata).unwrap().unwrap();
    assert_eq!(1, m.term);
    assert_eq!(None, m.voted_for);
}

#[test]
fn test_entries_rt() {
    let mut s = Directory::new();
    let entries = vec![make_log_entry(1, "CMD1"), make_log_entry(1, "CMD2")];
    s.store_log_entries(1, entries.clone());
    assert!(s.log.is_some());
    let l = s.restore_log_entries().unwrap();
    assert_eq!(l, entries);
}

#[test]
fn test_overwrite_entries() {
    // set entries in a log then overwrite them
    let mut s = Directory::new();
    let orig_entries = vec![
        make_log_entry(1, "CMD1"),
        make_log_entry(1, "TMPCMD2"),
        make_log_entry(1, "TMPCMD3"),
    ];
    s.store_log_entries(1, orig_entries.clone());

    // now attempt to store 3 new entries at start_index 2
    let new_entries = vec![
        // index 2
        make_log_entry(1, "CMD2"),
        // index 3
        make_log_entry(1, "CMD3"),
        // index 4
        make_log_entry(1, "CMD4"),
    ];
    s.store_log_entries(2, new_entries.clone());

    // get back the entries from the log file and compare
    let log_entries = s.restore_log_entries().unwrap();

    assert_eq!(log_entries[..1], orig_entries[..1]);
    assert_eq!(log_entries[1..], new_entries[..]);
}

#[test]
fn partial_frame() {
    // verify storing entries recovers from a partial frame write
    // start by just adding in one entry into the file
    let mut s = Directory::new();
    let entries = vec![make_log_entry(1, "CMD1")];
    s.store_log_entries(1, entries.clone());
    // then write a partial frame (just an index at 2)
    s.log.as_mut().unwrap().extend(2u64.to_be_bytes());
    // add another entry to the log
    let next = vec![make_log_entry(1, "CMD2")];
    s.store_log_entries(2, next.clone());

    let log = s.restore_log_entries().unwrap();
    assert_eq!(log[..1], entries[..1]);
    assert_eq!(log[1..], next[..]);
}

#[test]
fn restore_on_empty_dir() {
    // restore files from an empty dir (no writes) to get None
    let s = Directory::new();
    assert!(read_metadata_file(&s.metadata).unwrap().is_none());
    assert!(read_log_file(&s.log).unwrap().is_none());
    assert!(read_snapshot_file(&s.snapshot).unwrap().is_none());
    assert!(read_snapshot_data(&s.snapshot).is_err());
    assert!(matches!(
        read_snapshot_data(&s.snapshot),
        Err(FileError::SnapshotNotFound)
    ));
}

#[test]
fn truncate_log_restore() {
    // after truncating a log and restore, get an empty vec
    let mut s = Directory::new();
    s.store_log_entries(1, vec![make_log_entry(1, "CMD1")]);

    // truncate log
    s.log = Some(Vec::new());

    let restored = s.restore_log_entries().unwrap();
    assert!(restored.is_empty());
}

#[test]
fn snapshot_rt() {
    let mut s = Directory::new();
    let snapshot = Snapshot {
        last_included_index: 100,
        last_included_term: 2,
        data: "SNAPSHOT".as_bytes().to_vec(),
    };

    s.snapshot = Some(snapshot_file(&snapshot).unwrap());

    // and restore
    let restored = read_snapshot_file(&s.snapshot).unwrap().unwrap();
    assert_eq!(restored.last_included_index, snapshot.last_included_index);
    assert_eq!(restored.last_included_term, snapshot.last_included_term);
    assert_eq!(restored.data, snapshot.data);
    assert_eq!(read_snapshot_data(&s.snapshot).unwrap(), snapshot.data);
}

#[test]
fn unreadable_files_are_reported() {
    let endless = Some(vec![0xffu8; 11]);
    assert_eq!(read_metadata_file(&endless), Err(FileError::DataNotRead));
    assert!(matches!(
        read_snapshot_file(&endless),
        Err(FileError::DataNotRead)
    ));
    assert!(matches!(
        read_snapshot_data(&endless),
        Err(FileError::DataNotRead)
    ));
    let mut log: Vec<u8> = Vec::new();
    push_frame(&mut log, 7, &vec![0xff; 11]);
    assert!(matches!(
        read_log_file(&Some(log)),
        Err(FileError::EntryNotRead)
    ));
}

#[test]
fn binary_forms_are_exact() {
    // numbers go in groups of seven bits, the lowest first
    let entry = LogEntry {
        term: 300,
        command: vec![1, 2, 3],
    };
    assert_eq!(encode_entry(&entry), Some(vec![0xac, 0x02, 3, 1, 2, 3]));
    assert_eq!(decode_entry(&[0xac, 0x02, 3, 1, 2, 3]), Some(entry));
    assert_eq!(
        encode_metadata(&PersistedMetadata {
            term: 5,
            voted_for: None
        }),
        Some(vec![5, 0])
    );
    assert_eq!(
        encode_metadata(&PersistedMetadata {
            term: 127,
            voted_for: Some(128)
        }),
        Some(vec![127, 1, 0x80, 0x01])
    );
    assert_eq!(
        snapshot_file(&Snapshot {
            last_included_index: 2,
            last_included_term: 1,
            data: vec![9],
        }),
        Ok(vec![2, 1, 1, 9])
    );
}

#[test]
fn frames_are_exact() {
    let mut log: Vec<u8> = Vec::new();
    push_frame(&mut log, 258, &vec![7, 8]);
    assert_eq!(log, vec![0, 0, 0, 0, 0, 0, 1, 2, 0, 0, 0, 2, 7, 8]);
    push_frame(&mut log, 259, &vec![]);
    let first = find_frame(&log, 0).unwrap();
    assert_eq!(first.index, 258);
    assert_eq!(first.payload_start, 12);
    assert_eq!(first.next, 14);
    let second = find_frame(&log, 14).unwrap();
    assert_eq!(second.index, 259);
    assert_eq!(second.next, log.len());
    assert!(find_frame(&log, log.len()).is_none());
    // cut before a frame, and after the last one if there is none with the index
    assert_eq!(cut_position(&log, 258), 0);
    assert_eq!(cut_position(&log, 259), 14);
    assert_eq!(cut_position(&log, 1), log.len());
}

#[test]
fn every_cut_of_a_log_is_read_up_to_its_last_whole_frame() {
    let entries = vec![make_log_entry(1, "A"), make_log_entry(2, ""), make_log_entry(3, "BC")];
    let mut s = Directory::new();
    s.store_log_entries(1, entries.clone());
    let whole = s.log.unwrap();
    let mut last_count = 0;
    for end in 0..=whole.len() {
        let read = decode_log(&whole[..end]).unwrap();
        assert_eq!(read[..], entries[..read.len()]);
        assert!(read.len() >= last_count);
        last_count = read.len();
    }
    assert_eq!(last_count, entries.len());
}

#[test]
fn a_rewrite_from_the_start_replaces_the_log() {
    let mut s = InMemoryStorage::new();
    s.store_log_entries(PersistedLogAddendum {
        start_index: 5,
        entries: vec![make_log_entry(1, "OLD5"), make_log_entry(1, "OLD6")],
    })
    .unwrap();
    s.store_log_entries(PersistedLogAddendum {
        start_index: 5,
        entries: vec![make_log_entry(2, "NEW5")],
    })
    .unwrap();
    assert_eq!(
        s.restore_log_entries().unwrap().unwrap(),
        vec![make_log_entry(2, "NEW5")]
    );
    // an index that is not there yet goes to the end
    s.store_log_entries(PersistedLogAddendum {
        start_index: 6,
        entries: vec![make_log_entry(2, "NEW6")],
    })
    .unwrap();
    assert_eq!(
        s.restore_log_entries().unwrap().unwrap(),
        vec![make_log_entry(2, "NEW5"), make_log_entry(2, "NEW6")]
    );
}
