use kvs::partition::LogPartitionIter;
use kvs::{Directory, Entry, IoErrorKind, KvsEntry, KvsError, LogPartition, LogPointer, SerdeErrorKind};

fn put(key: &str, value: &str) -> KvsEntry {
    Entry::Put(key.to_string(), value.to_string())
}

fn remove(key: &str) -> KvsEntry {
    Entry::Remove(key.to_string())
}

#[test]
fn a_pointer_gives_its_length_and_offset() {
    let ptr = LogPointer { file_id: 9, offset: 17, len: 23 };
    assert_eq!(ptr.len(), 23);
    assert_eq!(ptr.offset(), 17);
    assert_eq!(ptr.file_id, 9);
}

#[test]
fn create_makes_the_file_of_the_partition() {
    let mut dir = Directory::new();
    let partition = LogPartition::create(&mut dir, 0xabc).unwrap();
    assert_eq!(partition, LogPartition { entry_count: 0, file_id: 0xabc });
    assert_eq!(dir.read(&"abc.dblog".to_string()), Some(&Vec::new()));
    assert_eq!(dir.len(), 1);
}

#[test]
fn create_fails_where_the_file_is_there() {
    let mut dir = Directory::new();
    dir.load("abc.dblog".to_string(), b"kept".to_vec());
    assert_eq!(
        LogPartition::create(&mut dir, 0xabc),
        Err(KvsError::Io(IoErrorKind::AlreadyExists))
    );
    assert_eq!(dir.read(&"abc.dblog".to_string()), Some(&b"kept".to_vec()));
    assert!(dir.take_journal().is_empty());
}

#[test]
fn new_makes_an_empty_partition_with_a_file_of_its_own() {
    let mut dir = Directory::new();
    let first = LogPartition::new(&mut dir).unwrap();
    let second = LogPartition::new(&mut dir).unwrap();
    assert_eq!(first.entry_count, 0);
    assert_eq!(second.entry_count, 0);
    assert_ne!(first.file_id, second.file_id);
    assert_eq!(dir.len(), 2);
    assert_eq!(dir.read(&first.file_name()), Some(&Vec::new()));
    assert_eq!(dir.read(&second.file_name()), Some(&Vec::new()));
}

#[test]
fn new_succeeds_where_no_partition_file_is_there() {
    let mut dir = Directory::new();
    dir.load("logparts".to_string(), b"x".to_vec());
    dir.load("other".to_string(), Vec::new());
    let partition = LogPartition::new(&mut dir).unwrap();
    assert_eq!(dir.len(), 3);
    assert_eq!(dir.read(&partition.file_name()), Some(&Vec::new()));
    assert_eq!(
        dir.take_journal(),
        vec![kvs::DiskOp::Create { name: format!("{:x}.dblog", partition.file_id) }]
    );
}

#[test]
fn new_draws_its_identifier_from_the_clock() {
    let mut dir = Directory::new();
    let partition = LogPartition::new(&mut dir).unwrap();
    // Nanoseconds since 1970: later than the year 2020, earlier than 2200.
    assert!(partition.file_id > 1_577_836_800_000_000_000);
    assert!(partition.file_id < 7_258_118_400_000_000_000);
}

#[test]
fn reading_a_partition_gives_its_entries_with_their_offsets() {
    let bytes = b"{\"Set\":[\"a\",\"1\"]}{\"Remove\":\"a\"}{\"Set\":[\"b\",\"2\"]}";
    let mut it = LogPartitionIter::new(bytes);
    assert_eq!(it.current_offset(), 0);
    assert_eq!(it.next(), Some(Ok((put("a", "1"), 0))));
    assert_eq!(it.current_offset(), 17);
    assert_eq!(it.next(), Some(Ok((remove("a"), 17))));
    assert_eq!(it.current_offset(), 31);
    assert_eq!(it.next(), Some(Ok((put("b", "2"), 31))));
    assert_eq!(it.current_offset(), bytes.len());
    assert_eq!(it.next(), None);
    assert_eq!(it.next(), None);
    assert_eq!(it.current_offset(), bytes.len());
}

#[test]
fn reading_an_empty_partition_gives_nothing() {
    let mut it = LogPartitionIter::new(b"");
    assert_eq!(it.next(), None);
    assert_eq!(it.current_offset(), 0);
}

#[test]
fn white_space_between_entries_is_passed_over() {
    let bytes = b"{\"Remove\":\"a\"}\n  {\"Remove\":\"b\"}\n";
    let mut it = LogPartitionIter::new(bytes);
    assert_eq!(it.next(), Some(Ok((remove("a"), 0))));
    assert_eq!(it.current_offset(), 14);
    assert_eq!(it.next(), Some(Ok((remove("b"), 17))));
    assert_eq!(it.current_offset(), 31);
    assert_eq!(it.next(), None);
}

#[test]
fn a_truncated_entry_ends_the_reading_with_an_error() {
    let bytes = b"{\"Set\":[\"a\",\"1\"]}{\"Set\":[\"b\",";
    let mut it = LogPartitionIter::new(bytes);
    assert_eq!(it.next(), Some(Ok((put("a", "1"), 0))));
    assert_eq!(it.next(), Some(Err(KvsError::Serde(SerdeErrorKind::MalformedEntry))));
    assert_eq!(it.current_offset(), 17);
    assert_eq!(it.next(), None);
    assert_eq!(it.next(), None);
}

#[test]
fn bytes_that_are_no_entry_end_the_reading_with_an_error() {
    let mut it = LogPartitionIter::new(b"garbage");
    assert_eq!(it.next(), Some(Err(KvsError::Serde(SerdeErrorKind::MalformedEntry))));
    assert_eq!(it.next(), None);
}
