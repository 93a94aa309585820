use kvs::{
    Directory, Entry, IoErrorKind, KvsEntry, KvsError, Log, LogIter, LogPartition, LogPointer,
    SerdeErrorKind,
};

fn s(text: &str) -> String {
    text.to_string()
}

fn put(key: &str, value: &str) -> KvsEntry {
    Entry::Put(s(key), s(value))
}

fn remove(key: &str) -> KvsEntry {
    Entry::Remove(s(key))
}

fn meta_text(dirname: &str, active: (u16, u128), hist: &[(u16, u128)]) -> Vec<u8> {
    let parts: Vec<String> = hist
        .iter()
        .map(|(count, id)| format!("{{\"entry_count\":{},\"file_id\":{}}}", count, id))
        .collect();
    format!(
        "{{\"dirname\":\"{}\",\"active\":{{\"entry_count\":{},\"file_id\":{}}},\"hist\":[{}]}}",
        dirname,
        active.0,
        active.1,
        parts.join(",")
    )
    .into_bytes()
}

/// A directory with the sealed partitions 1 and 2 and the active partition 3.
fn three_partitions() -> Directory {
    let mut dir = Directory::new();
    dir.load(s("1.dblog"), b"{\"Set\":[\"a\",\"1\"]}{\"Set\":[\"b\",\"2\"]}".to_vec());
    dir.load(s("2.dblog"), b"{\"Remove\":\"a\"}".to_vec());
    dir.load(s("3.dblog"), b"{\"Set\":[\"c\",\"3\"]}".to_vec());
    dir.load(s("logparts"), meta_text("data", (1, 3), &[(2, 1), (1, 2)]));
    dir
}

fn all_records(log: &Log) -> Vec<(KvsEntry, LogPointer)> {
    let mut it = log.iter();
    let mut out = Vec::new();
    while let Some(item) = it.next() {
        out.push(item.unwrap());
    }
    out
}

#[test]
fn opening_an_empty_directory_creates_one_partition_and_the_metadata() {
    let log = Log::open("data", Directory::new()).unwrap();
    let active = log.active();
    assert_eq!(active.entry_count, 0);
    assert!(log.hist().is_empty());
    assert_eq!(log.dirname(), "data");
    assert_eq!(log.len(), 0);
    let dir = log.directory();
    assert_eq!(dir.len(), 2);
    assert_eq!(dir.read(&active.file_name()), Some(&Vec::new()));
    assert_eq!(dir.read(&s("logparts")), Some(&meta_text("data", (0, active.file_id), &[])));
}

#[test]
fn opening_an_empty_directory_writes_down_what_it_created() {
    let mut log = Log::open("data", Directory::new()).unwrap();
    let name = log.active().file_name();
    let ops = log.take_journal();
    assert_eq!(ops.len(), 2);
    assert_eq!(ops[0], kvs::DiskOp::Create { name });
    assert_eq!(
        ops[1],
        kvs::DiskOp::Write {
            name: s("logparts"),
            bytes: meta_text("data", (0, log.active().file_id), &[])
        }
    );
}

#[test]
fn opening_a_directory_with_metadata_gives_the_log_it_describes() {
    let log = Log::open("elsewhere", three_partitions()).unwrap();
    assert_eq!(log.dirname(), "data");
    assert_eq!(log.active(), LogPartition { entry_count: 1, file_id: 3 });
    assert_eq!(
        log.hist(),
        &vec![
            LogPartition { entry_count: 2, file_id: 1 },
            LogPartition { entry_count: 1, file_id: 2 }
        ]
    );
    assert_eq!(log.len(), 4);
    assert_eq!(log.directory().len(), 4);
}

#[test]
fn opening_fails_where_the_metadata_does_not_read() {
    let mut dir = Directory::new();
    dir.load(s("logparts"), b"{\"dirname\":".to_vec());
    assert_eq!(
        Log::open("data", dir).err(),
        Some(KvsError::Serde(SerdeErrorKind::MalformedMetadata))
    );
}

#[test]
fn opening_fails_where_two_partitions_share_an_identifier() {
    let mut dir = Directory::new();
    dir.load(s("1.dblog"), Vec::new());
    dir.load(s("2.dblog"), Vec::new());
    dir.load(s("logparts"), meta_text("data", (0, 2), &[(0, 1), (0, 1)]));
    assert_eq!(
        Log::open("data", dir).err(),
        Some(KvsError::Serde(SerdeErrorKind::MalformedMetadata))
    );
    let mut dir = Directory::new();
    dir.load(s("1.dblog"), Vec::new());
    dir.load(s("logparts"), meta_text("data", (0, 1), &[(0, 1)]));
    assert_eq!(
        Log::open("data", dir).err(),
        Some(KvsError::Serde(SerdeErrorKind::MalformedMetadata))
    );
}

#[test]
fn opening_fails_where_the_file_of_a_partition_is_missing() {
    let mut dir = Directory::new();
    dir.load(s("1.dblog"), Vec::new());
    dir.load(s("logparts"), meta_text("data", (0, 2), &[(0, 1)]));
    assert_eq!(Log::open("data", dir).err(), Some(KvsError::Io(IoErrorKind::NotFound)));
    let mut dir = Directory::new();
    dir.load(s("2.dblog"), Vec::new());
    dir.load(s("logparts"), meta_text("data", (0, 2), &[(0, 1)]));
    assert_eq!(Log::open("data", dir).err(), Some(KvsError::Io(IoErrorKind::NotFound)));
}

#[test]
fn append_returns_the_place_of_the_entry() {
    let mut log = Log::open("data", Directory::new()).unwrap();
    let id = log.active().file_id;
    let first = log.append(&put("a", "1")).unwrap();
    assert_eq!(first, LogPointer { file_id: id, offset: 0, len: 17 });
    let second = log.append(&remove("a")).unwrap();
    assert_eq!(second, LogPointer { file_id: id, offset: 17, len: 14 });
    let third = log.append(&put("key", "value")).unwrap();
    assert_eq!(third, LogPointer { file_id: id, offset: 31, len: 23 });
    assert_eq!(log.active().entry_count, 3);
    assert_eq!(log.len(), 3);
    assert_eq!(
        log.directory().read(&log.active().file_name()),
        Some(&b"{\"Set\":[\"a\",\"1\"]}{\"Remove\":\"a\"}{\"Set\":[\"key\",\"value\"]}".to_vec())
    );
}

#[test]
fn append_bytes_writes_the_bytes_as_they_are() {
    let mut log = Log::open("data", Directory::new()).unwrap();
    let id = log.active().file_id;
    assert_eq!(log.append_bytes(b"abc"), Ok(LogPointer { file_id: id, offset: 0, len: 3 }));
    assert_eq!(log.append_bytes(b""), Ok(LogPointer { file_id: id, offset: 3, len: 0 }));
    assert_eq!(log.append_bytes(b"de"), Ok(LogPointer { file_id: id, offset: 3, len: 2 }));
    assert_eq!(log.active().entry_count, 3);
    assert_eq!(log.directory().read(&log.active().file_name()), Some(&b"abcde".to_vec()));
}

#[test]
fn retrieve_reads_the_entry_at_a_place() {
    let mut log = Log::open("data", Directory::new()).unwrap();
    let first = log.append(&put("a", "1")).unwrap();
    let second = log.append(&remove("a")).unwrap();
    let third = log.append(&put("a\n", "\"2\"")).unwrap();
    assert_eq!(log.retrieve(&second), Ok(remove("a")));
    assert_eq!(log.retrieve(&first), Ok(put("a", "1")));
    assert_eq!(log.retrieve(&third), Ok(put("a\n", "\"2\"")));
}

#[test]
fn retrieve_reads_from_sealed_partitions_too() {
    let log = Log::open("data", three_partitions()).unwrap();
    assert_eq!(log.retrieve(&LogPointer { file_id: 1, offset: 17, len: 17 }), Ok(put("b", "2")));
    assert_eq!(log.retrieve(&LogPointer { file_id: 2, offset: 0, len: 14 }), Ok(remove("a")));
    assert_eq!(log.retrieve(&LogPointer { file_id: 3, offset: 0, len: 17 }), Ok(put("c", "3")));
}

#[test]
fn retrieve_fails_where_the_bytes_are_not_one_entry() {
    let log = Log::open("data", three_partitions()).unwrap();
    let bad = Err(KvsError::Serde(SerdeErrorKind::MalformedEntry));
    // Too short, off by one, two entries, beyond the end.
    assert_eq!(log.retrieve(&LogPointer { file_id: 1, offset: 0, len: 16 }), bad);
    assert_eq!(log.retrieve(&LogPointer { file_id: 1, offset: 1, len: 17 }), bad);
    assert_eq!(log.retrieve(&LogPointer { file_id: 1, offset: 0, len: 34 }), bad);
    assert_eq!(log.retrieve(&LogPointer { file_id: 1, offset: 34, len: 17 }), bad);
    assert_eq!(log.retrieve(&LogPointer { file_id: 1, offset: 500, len: 17 }), bad);
    assert_eq!(log.retrieve(&LogPointer { file_id: 1, offset: u64::MAX, len: u64::MAX }), bad);
}

#[test]
fn retrieve_reads_as_far_as_the_partition_goes() {
    let log = Log::open("data", three_partitions()).unwrap();
    // The last entry of a partition, with a length that goes beyond the end.
    assert_eq!(log.retrieve(&LogPointer { file_id: 1, offset: 17, len: 100 }), Ok(put("b", "2")));
}

#[test]
fn position_leads_from_a_sealed_partition_to_its_place() {
    let mut log = Log::open("data", three_partitions()).unwrap();
    assert_eq!(log.position(1), Some(0));
    assert_eq!(log.position(2), Some(1));
    // The active partition is not sealed.
    assert_eq!(log.position(3), None);
    assert_eq!(log.position(4), None);
    log.initialize_new_active().unwrap();
    assert_eq!(log.position(3), Some(2));
    assert_eq!(log.position(log.active().file_id), None);
    for (i, partition) in log.hist().iter().enumerate() {
        assert_eq!(log.position(partition.file_id), Some(i));
    }
    log.compact(&Vec::new()).unwrap();
    assert_eq!(log.position(1), None);
    assert_eq!(log.position(3), None);
}

#[test]
fn opening_beside_other_files_starts_a_log() {
    let mut dir = Directory::new();
    dir.load(s("notes.txt"), b"kept".to_vec());
    dir.load(s("dblog"), b"kept".to_vec());
    let log = Log::open("data", dir).unwrap();
    assert!(log.hist().is_empty());
    assert_eq!(log.active().entry_count, 0);
    assert_eq!(log.len(), 0);
    assert_eq!(log.directory().len(), 4);
    assert_eq!(log.directory().read(&log.active().file_name()), Some(&Vec::new()));
    assert_eq!(log.directory().read(&s("notes.txt")), Some(&b"kept".to_vec()));
}

#[test]
fn knows_tells_the_partitions_of_the_log() {
    let log = Log::open("data", three_partitions()).unwrap();
    assert!(log.knows(1));
    assert!(log.knows(2));
    assert!(log.knows(3));
    assert!(!log.knows(4));
    assert!(!log.knows(0));
}

#[test]
fn iter_reads_all_partitions_oldest_first() {
    let log = Log::open("data", three_partitions()).unwrap();
    assert_eq!(
        all_records(&log),
        vec![
            (put("a", "1"), LogPointer { file_id: 1, offset: 0, len: 17 }),
            (put("b", "2"), LogPointer { file_id: 1, offset: 17, len: 17 }),
            (remove("a"), LogPointer { file_id: 2, offset: 0, len: 14 }),
            (put("c", "3"), LogPointer { file_id: 3, offset: 0, len: 17 }),
        ]
    );
}

#[test]
fn iter_passes_over_empty_partitions() {
    let mut dir = Directory::new();
    dir.load(s("1.dblog"), Vec::new());
    dir.load(s("2.dblog"), b"{\"Remove\":\"a\"}".to_vec());
    dir.load(s("3.dblog"), Vec::new());
    dir.load(s("4.dblog"), b"  ".to_vec());
    dir.load(s("5.dblog"), Vec::new());
    dir.load(s("logparts"), meta_text("data", (0, 5), &[(0, 1), (1, 2), (0, 3), (0, 4)]));
    let log = Log::open("data", dir).unwrap();
    assert_eq!(
        all_records(&log),
        vec![(remove("a"), LogPointer { file_id: 2, offset: 0, len: 14 })]
    );
}

#[test]
fn iter_gives_the_places_that_retrieve_reads() {
    let mut log = Log::open("data", three_partitions()).unwrap();
    log.append(&put("d", "4")).unwrap();
    log.append(&remove("b")).unwrap();
    let records = all_records(&log);
    assert_eq!(records.len(), 6);
    for (entry, ptr) in records {
        assert_eq!(log.retrieve(&ptr), Ok(entry));
    }
}

#[test]
fn iter_ends_with_an_error_at_bytes_that_are_no_entry() {
    let mut dir = Directory::new();
    dir.load(s("1.dblog"), b"{\"Remove\":\"a\"}{\"Rem".to_vec());
    dir.load(s("2.dblog"), b"{\"Remove\":\"b\"}".to_vec());
    dir.load(s("logparts"), meta_text("data", (1, 2), &[(1, 1)]));
    let log = Log::open("data", dir).unwrap();
    let mut it = LogIter::new(&log);
    assert_eq!(it.next(), Some(Ok((remove("a"), LogPointer { file_id: 1, offset: 0, len: 14 }))));
    assert_eq!(it.next(), Some(Err(KvsError::Serde(SerdeErrorKind::MalformedEntry))));
    assert_eq!(it.next(), None);
    assert_eq!(it.next(), None);
}

#[test]
fn a_full_partition_is_sealed_by_the_next_append() {
    let mut dir = Directory::new();
    dir.load(s("1.dblog"), b"{\"Remove\":\"a\"}".to_vec());
    dir.load(s("logparts"), meta_text("data", (65535, 1), &[]));
    let mut log = Log::open("data", dir).unwrap();
    assert!(log.hist().is_empty());
    let ptr = log.append(&put("k", "v")).unwrap();
    assert_eq!(log.hist(), &vec![LogPartition { entry_count: 65535, file_id: 1 }]);
    let active = log.active();
    assert_ne!(active.file_id, 1);
    assert_eq!(active.entry_count, 1);
    assert_eq!(ptr, LogPointer { file_id: active.file_id, offset: 0, len: 17 });
    assert_eq!(log.directory().read(&s("1.dblog")), Some(&b"{\"Remove\":\"a\"}".to_vec()));
    assert_eq!(log.directory().read(&active.file_name()), Some(&b"{\"Set\":[\"k\",\"v\"]}".to_vec()));
    assert_eq!(log.len(), 65536);
    assert!(log.knows(1));
}

#[test]
fn the_65536th_append_goes_into_a_new_partition() {
    let mut log = Log::open("data", Directory::new()).unwrap();
    let first = log.active().file_id;
    for i in 0..65535u32 {
        let ptr = log.append_bytes(b"{\"Remove\":\"a\"}").unwrap();
        assert_eq!(ptr.file_id, first);
        assert_eq!(ptr.offset, 14 * i as u64);
    }
    assert!(log.hist().is_empty());
    assert_eq!(log.active(), LogPartition { entry_count: 65535, file_id: first });
    let ptr = log.append_bytes(b"{\"Remove\":\"a\"}").unwrap();
    assert_ne!(ptr.file_id, first);
    assert_eq!((ptr.offset, ptr.len), (0, 14));
    assert_eq!(log.hist(), &vec![LogPartition { entry_count: 65535, file_id: first }]);
    assert_eq!(log.active(), LogPartition { entry_count: 1, file_id: ptr.file_id });
    assert_eq!(log.len(), 65536);
    assert_eq!(log.directory().len(), 3);
}

#[test]
fn initialize_new_active_seals_the_active_partition() {
    let mut log = Log::open("data", three_partitions()).unwrap();
    log.initialize_new_active().unwrap();
    assert_eq!(
        log.hist(),
        &vec![
            LogPartition { entry_count: 2, file_id: 1 },
            LogPartition { entry_count: 1, file_id: 2 },
            LogPartition { entry_count: 1, file_id: 3 }
        ]
    );
    let active = log.active();
    assert_eq!(active.entry_count, 0);
    assert!(![1, 2, 3].contains(&active.file_id));
    assert_eq!(log.directory().read(&active.file_name()), Some(&Vec::new()));
    assert_eq!(log.len(), 4);
    assert!(log.knows(3));
    assert_eq!(all_records(&log).len(), 4);
}

#[test]
fn initialize_new_active_writes_the_metadata_anew() {
    let mut log = Log::open("data", three_partitions()).unwrap();
    log.take_journal();
    log.initialize_new_active().unwrap();
    let active = log.active();
    let expected = meta_text("data", (0, active.file_id), &[(2, 1), (1, 2), (1, 3)]);
    assert_eq!(log.directory().read(&s("logparts")), Some(&expected));
    assert_eq!(
        log.take_journal(),
        vec![
            kvs::DiskOp::Create { name: active.file_name() },
            kvs::DiskOp::Write { name: s("logparts"), bytes: expected },
        ]
    );
}

#[test]
fn an_append_that_fits_leaves_the_metadata_as_it_is() {
    let mut log = Log::open("data", three_partitions()).unwrap();
    log.append(&put("d", "4")).unwrap();
    assert_eq!(
        log.directory().read(&s("logparts")),
        Some(&meta_text("data", (1, 3), &[(2, 1), (1, 2)]))
    );
    assert_eq!(log.active().entry_count, 2);
}

#[test]
fn compact_describes_the_new_log_before_it_deletes_the_old_files() {
    let mut log = Log::open("data", three_partitions()).unwrap();
    log.take_journal();
    log.compact(&vec![LogPointer { file_id: 1, offset: 17, len: 17 }]).unwrap();
    let active = log.active();
    let expected = meta_text("data", (1, active.file_id), &[]);
    assert_eq!(log.directory().read(&s("logparts")), Some(&expected));
    assert_eq!(
        log.take_journal(),
        vec![
            kvs::DiskOp::Create { name: active.file_name() },
            kvs::DiskOp::Append {
                name: active.file_name(),
                bytes: b"{\"Set\":[\"b\",\"2\"]}".to_vec()
            },
            kvs::DiskOp::Write { name: s("logparts"), bytes: expected },
            kvs::DiskOp::Remove { name: s("1.dblog") },
            kvs::DiskOp::Remove { name: s("2.dblog") },
            kvs::DiskOp::Remove { name: s("3.dblog") },
        ]
    );
}

#[test]
fn compact_copies_the_bytes_at_the_pointers_into_a_new_log() {
    let mut log = Log::open("data", three_partitions()).unwrap();
    let keep = vec![
        LogPointer { file_id: 3, offset: 0, len: 17 },
        LogPointer { file_id: 1, offset: 17, len: 17 },
    ];
    assert_eq!(log.compact(&keep), Ok(()));
    let active = log.active();
    assert!(![1, 2, 3].contains(&active.file_id));
    assert_eq!(active.entry_count, 2);
    assert!(log.hist().is_empty());
    assert_eq!(log.len(), 2);
    assert_eq!(
        log.directory().read(&active.file_name()),
        Some(&b"{\"Set\":[\"c\",\"3\"]}{\"Set\":[\"b\",\"2\"]}".to_vec())
    );
    assert_eq!(
        all_records(&log),
        vec![
            (put("c", "3"), LogPointer { file_id: active.file_id, offset: 0, len: 17 }),
            (put("b", "2"), LogPointer { file_id: active.file_id, offset: 17, len: 17 }),
        ]
    );
}

#[test]
fn compact_deletes_the_files_of_the_old_partitions() {
    let mut log = Log::open("data", three_partitions()).unwrap();
    log.compact(&vec![LogPointer { file_id: 2, offset: 0, len: 14 }]).unwrap();
    let dir = log.directory();
    assert_eq!(dir.len(), 2);
    assert!(!dir.contains(&s("1.dblog")));
    assert!(!dir.contains(&s("2.dblog")));
    assert!(!dir.contains(&s("3.dblog")));
    assert!(dir.contains(&s("logparts")));
    assert!(dir.contains(&log.active().file_name()));
    assert!(!log.knows(1));
    assert!(!log.knows(2));
    assert!(!log.knows(3));
}

#[test]
fn compact_with_no_pointers_leaves_an_empty_log() {
    let mut log = Log::open("data", three_partitions()).unwrap();
    assert_eq!(log.compact(&Vec::new()), Ok(()));
    assert_eq!(log.len(), 0);
    assert!(log.hist().is_empty());
    assert_eq!(log.directory().read(&log.active().file_name()), Some(&Vec::new()));
    assert!(all_records(&log).is_empty());
}

#[test]
fn compact_rotates_when_a_new_partition_is_full() {
    let mut dir = Directory::new();
    dir.load(s("1.dblog"), b"{\"Remove\":\"a\"}".to_vec());
    dir.load(s("logparts"), meta_text("data", (1, 1), &[]));
    let mut log = Log::open("data", dir).unwrap();
    let keep = vec![LogPointer { file_id: 1, offset: 0, len: 14 }; 65537];
    assert_eq!(log.compact(&keep), Ok(()));
    assert_eq!(log.hist().len(), 1);
    assert_eq!(log.hist()[0].entry_count, 65535);
    assert_eq!(log.active().entry_count, 2);
    assert_eq!(log.len(), 65537);
    assert_eq!(log.directory().len(), 3);
    assert_eq!(log.directory().read(&log.hist()[0].file_name()).unwrap().len(), 65535 * 14);
    assert_eq!(log.directory().read(&log.active().file_name()).unwrap().len(), 2 * 14);
}

#[test]
fn compact_leaves_the_log_as_it_was_where_a_pointer_goes_beyond_the_end() {
    let mut log = Log::open("data", three_partitions()).unwrap();
    log.take_journal();
    let keep = vec![
        LogPointer { file_id: 3, offset: 0, len: 17 },
        LogPointer { file_id: 1, offset: 17, len: 18 },
    ];
    assert_eq!(log.compact(&keep), Err(KvsError::Io(IoErrorKind::UnexpectedEof)));
    assert_eq!(log.active(), LogPartition { entry_count: 1, file_id: 3 });
    assert_eq!(log.hist().len(), 2);
    assert_eq!(log.directory().len(), 4);
    assert_eq!(all_records(&log).len(), 4);
    assert!(log.knows(1));
    assert_eq!(
        log.directory().read(&s("logparts")),
        Some(&meta_text("data", (1, 3), &[(2, 1), (1, 2)]))
    );
    // What was created on the way was deleted again.
    let ops = log.take_journal();
    assert_eq!(ops.len(), 3);
    let created = match &ops[0] {
        kvs::DiskOp::Create { name } => name.clone(),
        other => panic!("{:?}", other),
    };
    assert_eq!(
        ops[1],
        kvs::DiskOp::Append { name: created.clone(), bytes: b"{\"Set\":[\"c\",\"3\"]}".to_vec() }
    );
    assert_eq!(ops[2], kvs::DiskOp::Remove { name: created });
}

#[test]
fn compact_leaves_the_log_as_it_was_where_a_pointer_names_no_partition() {
    let mut log = Log::open("data", three_partitions()).unwrap();
    let keep = vec![LogPointer { file_id: 9, offset: 0, len: 1 }];
    assert_eq!(log.compact(&keep), Err(KvsError::Io(IoErrorKind::NotFound)));
    assert_eq!(log.len(), 4);
    assert_eq!(log.directory().len(), 4);
    assert_eq!(all_records(&log).len(), 4);
}

#[test]
fn dump_meta_describes_the_log_as_it_is() {
    let mut log = Log::open("data", Directory::new()).unwrap();
    log.append(&put("a", "1")).unwrap();
    log.initialize_new_active().unwrap();
    log.append(&put("b", "2")).unwrap();
    log.append(&put("c", "3")).unwrap();
    assert_eq!(log.dump_meta(), Ok(()));
    let sealed = log.hist()[0];
    let active = log.active();
    assert_eq!(
        log.directory().read(&s("logparts")),
        Some(&meta_text("data", (2, active.file_id), &[(1, sealed.file_id)]))
    );
}

#[test]
fn close_writes_the_metadata_and_hands_the_directory_back() {
    let mut log = Log::open("data", Directory::new()).unwrap();
    log.append(&put("a", "1")).unwrap();
    let active = log.active();
    let dir = log.close();
    assert_eq!(dir.len(), 2);
    assert_eq!(dir.read(&s("logparts")), Some(&meta_text("data", (1, active.file_id), &[])));
    assert_eq!(dir.read(&active.file_name()), Some(&b"{\"Set\":[\"a\",\"1\"]}".to_vec()));
}

#[test]
fn a_closed_log_opens_as_it_was() {
    let mut log = Log::open("data", three_partitions()).unwrap();
    log.append(&put("d", "4")).unwrap();
    log.initialize_new_active().unwrap();
    log.append(&remove("d")).unwrap();
    let before = all_records(&log);
    let (hist, active) = (log.hist().clone(), log.active());
    let log = Log::open("data", log.close()).unwrap();
    assert_eq!(log.hist(), &hist);
    assert_eq!(log.active(), active);
    assert_eq!(log.len(), 6);
    assert_eq!(all_records(&log), before);
}
