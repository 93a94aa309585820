use kvs::{
    Directory, DiskOp, Entry, IoErrorKind, KvStore, KvsError, LogPointer, SerdeErrorKind,
};
use std::collections::BTreeMap;

fn s(text: &str) -> String {
    text.to_string()
}

fn fresh() -> KvStore {
    KvStore::open("data", Directory::new()).unwrap()
}

fn meta_text(active: (u16, u128), hist: &[(u16, u128)]) -> Vec<u8> {
    let parts: Vec<String> = hist
        .iter()
        .map(|(count, id)| format!("{{\"entry_count\":{},\"file_id\":{}}}", count, id))
        .collect();
    format!(
        "{{\"dirname\":\"data\",\"active\":{{\"entry_count\":{},\"file_id\":{}}},\"hist\":[{}]}}",
        active.0,
        active.1,
        parts.join(",")
    )
    .into_bytes()
}

fn apply(files: &mut BTreeMap<String, Vec<u8>>, ops: Vec<DiskOp>) {
    for op in ops {
        match op {
            DiskOp::Create { name } => {
                assert!(files.insert(name, Vec::new()).is_none());
            }
            DiskOp::Append { name, bytes } => {
                files.get_mut(&name).unwrap().extend_from_slice(&bytes);
            }
            DiskOp::Write { name, bytes } => {
                files.insert(name, bytes);
            }
            DiskOp::Remove { name } => {
                assert!(files.remove(&name).is_some());
            }
        }
    }
}

fn image(files: &BTreeMap<String, Vec<u8>>) -> Directory {
    let mut dir = Directory::new();
    for (name, data) in files {
        assert!(dir.load(name.clone(), data.clone()));
    }
    dir
}

#[test]
fn set_then_get_returns_the_value() {
    let mut store = fresh();
    store.set(s("a"), s("1")).unwrap();
    assert_eq!(store.get(s("a")), Ok(Some(s("1"))));
}

#[test]
fn the_second_value_replaces_the_first() {
    let mut store = fresh();
    store.set(s("a"), s("1")).unwrap();
    store.set(s("a"), s("2")).unwrap();
    assert_eq!(store.get(s("a")), Ok(Some(s("2"))));
    assert_eq!(store.len(), 1);
}

#[test]
fn a_removed_key_is_not_found() {
    let mut store = fresh();
    store.set(s("a"), s("1")).unwrap();
    assert_eq!(store.remove(s("a")), Ok(()));
    assert_eq!(store.get(s("a")), Ok(None));
    assert_eq!(store.remove(s("a")), Err(KvsError::KeyNotFound));
    assert_eq!(store.len(), 0);
}

#[test]
fn removing_a_key_that_was_never_set_fails() {
    let mut store = fresh();
    assert_eq!(store.remove(s("a")), Err(KvsError::KeyNotFound));
    store.set(s("b"), s("1")).unwrap();
    assert_eq!(store.remove(s("a")), Err(KvsError::KeyNotFound));
    assert!(store.remove(s("a")).unwrap_err().is_key_not_found());
    assert_eq!(store.len(), 1);
}

#[test]
fn a_failed_remove_writes_nothing() {
    let mut store = fresh();
    store.set(s("b"), s("1")).unwrap();
    store.take_journal();
    assert!(store.remove(s("a")).is_err());
    assert!(store.take_journal().is_empty());
    assert_eq!(store.log().len(), 1);
}

#[test]
fn get_of_a_key_that_is_not_there_does_not_touch_the_log() {
    let mut store = fresh();
    store.set(s("b"), s("1")).unwrap();
    store.take_journal();
    let before = store.log().directory().read(&store.log().active().file_name()).cloned();
    assert_eq!(store.get(s("a")), Ok(None));
    assert_eq!(store.get(s("")), Ok(None));
    assert!(store.take_journal().is_empty());
    assert_eq!(store.log().len(), 1);
    assert_eq!(store.log().directory().read(&store.log().active().file_name()).cloned(), before);
}

#[test]
fn get_does_not_change_the_store() {
    let mut store = fresh();
    store.set(s("a"), s("1")).unwrap();
    store.take_journal();
    assert_eq!(store.get(s("a")), Ok(Some(s("1"))));
    assert_eq!(store.get(s("a")), Ok(Some(s("1"))));
    assert!(store.take_journal().is_empty());
    assert_eq!(store.len(), 1);
    assert_eq!(store.log().len(), 1);
}

#[test]
fn len_counts_the_keys_that_are_held() {
    let mut store = fresh();
    assert_eq!(store.len(), 0);
    store.set(s("a"), s("1")).unwrap();
    store.set(s("b"), s("2")).unwrap();
    store.set(s("c"), s("3")).unwrap();
    assert_eq!(store.len(), 3);
    store.set(s("b"), s("4")).unwrap();
    assert_eq!(store.len(), 3);
    store.remove(s("a")).unwrap();
    assert_eq!(store.len(), 2);
    store.remove(s("c")).unwrap();
    store.remove(s("b")).unwrap();
    assert_eq!(store.len(), 0);
    store.set(s("a"), s("5")).unwrap();
    assert_eq!(store.len(), 1);
}

#[test]
fn keys_do_not_disturb_each_other() {
    let mut store = fresh();
    for i in 0..50 {
        store.set(format!("key{}", i), format!("value{}", i)).unwrap();
    }
    for i in (0..50).step_by(3) {
        store.remove(format!("key{}", i)).unwrap();
    }
    for i in (1..50).step_by(3) {
        store.set(format!("key{}", i), format!("again{}", i)).unwrap();
    }
    for i in 0..50 {
        let expected = match i % 3 {
            0 => None,
            1 => Some(format!("again{}", i)),
            _ => Some(format!("value{}", i)),
        };
        assert_eq!(store.get(format!("key{}", i)), Ok(expected));
    }
    assert_eq!(store.len(), 33);
}

#[test]
fn keys_and_values_may_hold_any_text() {
    let mut store = fresh();
    let texts = ["", " ", "\"", "\\", "\n\r\t", "{\"Set\":[\"a\",\"1\"]}", "é値\u{1f600}", "\u{0}\u{1f}"];
    for (i, key) in texts.iter().enumerate() {
        store.set(s(key), s(texts[texts.len() - 1 - i])).unwrap();
    }
    for (i, key) in texts.iter().enumerate() {
        assert_eq!(store.get(s(key)), Ok(Some(s(texts[texts.len() - 1 - i]))));
    }
    let mut store = KvStore::open("data", store.close()).unwrap();
    for (i, key) in texts.iter().enumerate() {
        assert_eq!(store.get(s(key)), Ok(Some(s(texts[texts.len() - 1 - i]))));
    }
}

#[test]
fn the_index_points_to_the_entry_that_set_the_key() {
    let mut store = KvStore::open("data", with_two_sealed_partitions()).unwrap();
    let check = |store: &mut KvStore, live: &[(&str, &str)], gone: &[&str]| {
        for (key, value) in live {
            let ptr = store.locate(&s(key)).unwrap();
            assert_eq!(store.log().retrieve(&ptr), Ok(Entry::Put(s(key), s(value))));
            assert_eq!(store.get(s(key)), Ok(Some(s(value))));
        }
        for key in gone {
            assert_eq!(store.locate(&s(key)), None);
        }
    };
    store.set(s("a"), s("1")).unwrap();
    store.set(s("b"), s("2")).unwrap();
    check(&mut store, &[("a", "1"), ("b", "2")], &["c"]);
    store.set(s("a"), s("3")).unwrap();
    store.remove(s("b")).unwrap();
    check(&mut store, &[("a", "3")], &["b", "c"]);
    // Compaction moves the entries; the index follows.
    store.set(s("c"), s("4")).unwrap();
    store.set(s("c"), s("5")).unwrap();
    assert!(store.log().hist().is_empty());
    check(&mut store, &[("a", "3"), ("c", "5")], &["b"]);
    let mut store = KvStore::open("data", store.close()).unwrap();
    check(&mut store, &[("a", "3"), ("c", "5")], &["b"]);
}

#[test]
fn opening_gives_the_index_that_the_writes_gave() {
    let mut store = fresh();
    let keys = ["a", "b", "c", "d"];
    for i in 0..12 {
        store.set(s(keys[i % 4]), format!("{}", i)).unwrap();
        if i % 5 == 0 {
            store.remove(s(keys[i % 4])).unwrap();
        }
        // After every write: a store that reads the log so far has the
        // same index.
        let before: Vec<Option<LogPointer>> = keys.iter().map(|k| store.locate(&s(k))).collect();
        store = KvStore::open("data", store.close()).unwrap();
        let after: Vec<Option<LogPointer>> = keys.iter().map(|k| store.locate(&s(k))).collect();
        assert_eq!(before, after);
    }
    // Before the ninth set, the partition holds eight sets of 17 bytes and
    // two removes of 14 bytes.
    assert_eq!(store.locate(&s("a")).map(|p| (p.offset, p.len)), Some((164, 17)));
}

#[test]
fn load_index_builds_the_index_that_the_writes_gave() {
    let mut store = fresh();
    let keys = ["a", "b", "c"];
    store.set(s("a"), s("1")).unwrap();
    store.set(s("b"), s("2")).unwrap();
    store.set(s("a"), s("3")).unwrap();
    store.remove(s("b")).unwrap();
    store.set(s("c"), s("4")).unwrap();
    let before: Vec<Option<LogPointer>> = keys.iter().map(|k| store.locate(&s(k))).collect();
    store.take_journal();
    assert_eq!(store.load_index(), Ok(()));
    let after: Vec<Option<LogPointer>> = keys.iter().map(|k| store.locate(&s(k))).collect();
    assert_eq!(before, after);
    let id = store.log().active().file_id;
    // The last set of each key that was not removed after it.
    assert_eq!(
        after,
        vec![
            Some(LogPointer { file_id: id, offset: 34, len: 17 }),
            None,
            Some(LogPointer { file_id: id, offset: 65, len: 17 }),
        ]
    );
    assert_eq!(store.len(), 2);
    assert!(store.take_journal().is_empty());
}

#[test]
fn opening_a_log_up_to_each_entry_gives_the_index_of_that_moment() {
    let entries: [&[u8]; 5] = [
        b"{\"Set\":[\"a\",\"1\"]}",
        b"{\"Set\":[\"b\",\"2\"]}",
        b"{\"Remove\":\"a\"}",
        b"{\"Set\":[\"b\",\"3\"]}",
        b"{\"Set\":[\"a\",\"4\"]}",
    ];
    let ptr = |offset: u64, len: u64| Some(LogPointer { file_id: 1, offset, len });
    let expected = [
        (None, None),
        (ptr(0, 17), None),
        (ptr(0, 17), ptr(17, 17)),
        (None, ptr(17, 17)),
        (None, ptr(48, 17)),
        (ptr(65, 17), ptr(48, 17)),
    ];
    let mut written = fresh();
    for count in 0..=entries.len() {
        let mut dir = Directory::new();
        dir.load(s("1.dblog"), entries[..count].concat());
        dir.load(s("logparts"), meta_text((0, 1), &[]));
        let store = KvStore::open("data", dir).unwrap();
        assert_eq!((store.locate(&s("a")), store.locate(&s("b"))), expected[count]);
        // A store that made these writes itself has the same index.
        let offsets = |p: Option<LogPointer>| p.map(|p| (p.offset, p.len));
        assert_eq!(offsets(written.locate(&s("a"))), offsets(expected[count].0));
        assert_eq!(offsets(written.locate(&s("b"))), offsets(expected[count].1));
        match count {
            0 => written.set(s("a"), s("1")).unwrap(),
            1 => written.set(s("b"), s("2")).unwrap(),
            2 => written.remove(s("a")).unwrap(),
            3 => written.set(s("b"), s("3")).unwrap(),
            4 => written.set(s("a"), s("4")).unwrap(),
            _ => {}
        }
    }
}

#[test]
fn maybe_compact_leaves_a_log_that_is_not_due_as_it_is() {
    // Two sealed partitions, but no more than twice as many entries as keys.
    let mut dir = Directory::new();
    dir.load(s("1.dblog"), b"{\"Set\":[\"a\",\"1\"]}".to_vec());
    dir.load(s("2.dblog"), b"{\"Set\":[\"a\",\"2\"]}".to_vec());
    dir.load(s("3.dblog"), Vec::new());
    dir.load(s("logparts"), meta_text((0, 3), &[(1, 1), (1, 2)]));
    let mut store = KvStore::open("data", dir).unwrap();
    assert_eq!((store.log().hist().len(), store.log().len(), store.len()), (2, 2, 1));
    assert_eq!(store.maybe_compact(), Ok(()));
    assert!(store.take_journal().is_empty());
    assert_eq!(store.log().hist().len(), 2);
    assert_eq!(store.locate(&s("a")), Some(LogPointer { file_id: 2, offset: 0, len: 17 }));
    // One sealed partition, however many entries.
    let mut dir = Directory::new();
    dir.load(s("1.dblog"), b"{\"Set\":[\"a\",\"1\"]}{\"Set\":[\"a\",\"2\"]}".to_vec());
    dir.load(s("2.dblog"), b"{\"Set\":[\"a\",\"3\"]}".to_vec());
    dir.load(s("logparts"), meta_text((1, 2), &[(2, 1)]));
    let mut store = KvStore::open("data", dir).unwrap();
    assert_eq!((store.log().hist().len(), store.log().len(), store.len()), (1, 3, 1));
    assert_eq!(store.maybe_compact(), Ok(()));
    assert!(store.take_journal().is_empty());
    assert_eq!(store.log().len(), 3);
    assert_eq!(store.locate(&s("a")), Some(LogPointer { file_id: 2, offset: 0, len: 17 }));
}

#[test]
fn maybe_compact_compacts_a_log_that_is_due() {
    // Two sealed partitions, three entries, one key.
    let mut dir = Directory::new();
    dir.load(s("1.dblog"), b"{\"Set\":[\"a\",\"1\"]}".to_vec());
    dir.load(s("2.dblog"), b"{\"Set\":[\"a\",\"2\"]}".to_vec());
    dir.load(s("3.dblog"), b"{\"Set\":[\"a\",\"3\"]}".to_vec());
    dir.load(s("logparts"), meta_text((1, 3), &[(1, 1), (1, 2)]));
    let mut store = KvStore::open("data", dir).unwrap();
    assert_eq!((store.log().hist().len(), store.log().len(), store.len()), (2, 3, 1));
    assert_eq!(store.maybe_compact(), Ok(()));
    assert_eq!((store.log().hist().len(), store.log().len(), store.len()), (0, 1, 1));
    let active = store.log().active();
    assert_eq!(
        store.locate(&s("a")),
        Some(LogPointer { file_id: active.file_id, offset: 0, len: 17 })
    );
    assert_eq!(store.get(s("a")), Ok(Some(s("3"))));
    assert_eq!(
        store.log().directory().read(&active.file_name()),
        Some(&b"{\"Set\":[\"a\",\"3\"]}".to_vec())
    );
    assert_eq!(store.log().directory().len(), 2);
}

#[test]
fn each_change_is_one_entry_in_the_active_partition() {
    let mut store = fresh();
    store.set(s("a"), s("1")).unwrap();
    store.set(s("a"), s("2")).unwrap();
    store.remove(s("a")).unwrap();
    let log = store.log();
    assert_eq!(log.len(), 3);
    assert_eq!(
        log.directory().read(&log.active().file_name()),
        Some(&b"{\"Set\":[\"a\",\"1\"]}{\"Set\":[\"a\",\"2\"]}{\"Remove\":\"a\"}".to_vec())
    );
}

#[test]
fn a_closed_store_opens_with_what_it_held() {
    let mut store = fresh();
    store.set(s("a"), s("1")).unwrap();
    let dir = store.close();
    let mut store = KvStore::open("data", dir).unwrap();
    assert_eq!(store.get(s("a")), Ok(Some(s("1"))));
}

#[test]
fn closing_and_opening_keeps_sets_and_removes() {
    let mut store = fresh();
    store.set(s("a"), s("1")).unwrap();
    store.set(s("b"), s("2")).unwrap();
    store.set(s("a"), s("3")).unwrap();
    store.set(s("c"), s("4")).unwrap();
    store.remove(s("b")).unwrap();
    let mut store = KvStore::open("data", store.close()).unwrap();
    assert_eq!(store.len(), 2);
    assert_eq!(store.get(s("a")), Ok(Some(s("3"))));
    assert_eq!(store.get(s("b")), Ok(None));
    assert_eq!(store.get(s("c")), Ok(Some(s("4"))));
    assert_eq!(store.remove(s("b")), Err(KvsError::KeyNotFound));
    store.set(s("b"), s("5")).unwrap();
    let mut store = KvStore::open("data", store.close()).unwrap();
    assert_eq!(store.get(s("b")), Ok(Some(s("5"))));
    assert_eq!(store.len(), 3);
    assert_eq!(store.log().len(), 6);
}

#[test]
fn a_store_that_was_not_closed_is_rebuilt_from_its_entries() {
    let mut files = BTreeMap::new();
    let mut store = fresh();
    apply(&mut files, store.take_journal());
    store.set(s("k"), s("v")).unwrap();
    apply(&mut files, store.take_journal());
    // The store is dropped without writing its metadata anew: the host has
    // the partition with the entry, and the metadata of the empty log.
    drop(store);
    assert_eq!(files.len(), 2);
    let mut store = KvStore::open("data", image(&files)).unwrap();
    assert_eq!(store.get(s("k")), Ok(Some(s("v"))));
    assert_eq!(store.len(), 1);
    assert_eq!(store.log().active().entry_count, 0);
}

#[test]
fn the_journal_carries_the_store_over_to_a_host() {
    let mut files = BTreeMap::new();
    let mut store = fresh();
    for i in 0..20 {
        store.set(format!("key{}", i % 7), format!("value{}", i)).unwrap();
        if i % 5 == 4 {
            store.remove(format!("key{}", i % 7)).unwrap();
        }
        apply(&mut files, store.take_journal());
    }
    let dir = store.close();
    let mut rest = dir;
    apply(&mut files, rest.take_journal());
    assert_eq!(files.len(), rest.len());
    for (name, data) in &files {
        assert_eq!(rest.read(name), Some(data));
    }
    let mut store = KvStore::open("data", image(&files)).unwrap();
    assert_eq!(store.get(s("key6")), Ok(Some(s("value13"))));
    assert_eq!(store.get(s("key4")), Ok(Some(s("value18"))));
    assert_eq!(store.get(s("key5")), Ok(None));
    assert_eq!(store.get(s("key0")), Ok(None));
}

#[test]
fn a_store_that_was_not_closed_after_compaction_loses_nothing() {
    let mut files = BTreeMap::new();
    files.insert(s("1.dblog"), Vec::new());
    files.insert(s("2.dblog"), Vec::new());
    files.insert(s("3.dblog"), Vec::new());
    files.insert(s("logparts"), meta_text((0, 3), &[(0, 1), (0, 2)]));
    let mut store = KvStore::open("data", image(&files)).unwrap();
    for i in 0..8 {
        store.set(format!("key{}", i % 2), format!("value{}", i)).unwrap();
        apply(&mut files, store.take_journal());
        // At every moment the host has what a new store needs.
        let mut again = KvStore::open("data", image(&files)).unwrap();
        assert_eq!(again.len(), store.len());
        for key in 0..2 {
            assert_eq!(again.get(format!("key{}", key)), store.get(format!("key{}", key)));
        }
    }
    assert!(store.log().hist().is_empty());
    assert!(!files.contains_key("1.dblog"));
    drop(store);
    let mut store = KvStore::open("data", image(&files)).unwrap();
    assert_eq!(store.get(s("key0")), Ok(Some(s("value6"))));
    assert_eq!(store.get(s("key1")), Ok(Some(s("value7"))));
}

#[test]
fn a_store_that_was_not_closed_after_a_rotation_loses_nothing() {
    let mut files = BTreeMap::new();
    files.insert(s("1.dblog"), Vec::new());
    files.insert(s("logparts"), meta_text((65534, 1), &[]));
    let mut store = KvStore::open("data", image(&files)).unwrap();
    store.set(s("a"), s("1")).unwrap();
    assert!(store.log().hist().is_empty());
    store.set(s("b"), s("2")).unwrap();
    assert_eq!(store.log().hist().len(), 1);
    store.set(s("a"), s("3")).unwrap();
    apply(&mut files, store.take_journal());
    drop(store);
    assert_eq!(files.len(), 3);
    let mut store = KvStore::open("data", image(&files)).unwrap();
    assert_eq!(store.len(), 2);
    assert_eq!(store.get(s("a")), Ok(Some(s("3"))));
    assert_eq!(store.get(s("b")), Ok(Some(s("2"))));
    assert_eq!(store.log().hist().len(), 1);
}

/// All that the store holds under the keys `keys`.
fn held(store: &mut KvStore, keys: &[&str]) -> Vec<Option<String>> {
    keys.iter().map(|key| store.get(s(key)).unwrap()).collect()
}

/// Carries the changes `ops` over one by one, and opens a store after each:
/// it must hold what was held before the changes or what is held after them.
fn stop_anywhere(
    files: &mut BTreeMap<String, Vec<u8>>,
    ops: Vec<DiskOp>,
    keys: &[&str],
    before: &[Option<String>],
    after: &[Option<String>],
) {
    let mut seen_after = false;
    for op in ops {
        apply(files, vec![op]);
        let mut store = KvStore::open("data", image(files)).unwrap();
        let now = held(&mut store, keys);
        if now == after {
            seen_after = true;
        } else {
            assert!(!seen_after);
            assert_eq!(now, before);
        }
    }
    let mut store = KvStore::open("data", image(files)).unwrap();
    assert_eq!(held(&mut store, keys), after);
}

#[test]
fn a_write_can_stop_after_any_change() {
    let keys = ["a", "b"];
    let mut files = BTreeMap::new();
    let mut store = fresh();
    apply(&mut files, store.take_journal());
    for i in 0..6 {
        let before = held(&mut store, &keys);
        if i % 3 == 2 {
            store.remove(s(keys[i % 2])).unwrap();
        } else {
            store.set(s(keys[i % 2]), format!("{}", i)).unwrap();
        }
        let after = held(&mut store, &keys);
        stop_anywhere(&mut files, store.take_journal(), &keys, &before, &after);
    }
}

#[test]
fn a_write_that_starts_a_partition_can_stop_after_any_change() {
    let keys = ["a", "b"];
    let mut files = BTreeMap::new();
    files.insert(s("1.dblog"), b"{\"Set\":[\"a\",\"0\"]}".to_vec());
    files.insert(s("logparts"), meta_text((65535, 1), &[]));
    let mut store = KvStore::open("data", image(&files)).unwrap();
    let before = held(&mut store, &keys);
    store.set(s("b"), s("1")).unwrap();
    let after = held(&mut store, &keys);
    assert_eq!(before, vec![Some(s("0")), None]);
    assert_eq!(after, vec![Some(s("0")), Some(s("1"))]);
    let ops = store.take_journal();
    assert_eq!(ops.len(), 3);
    stop_anywhere(&mut files, ops, &keys, &before, &after);
}

#[test]
fn a_write_that_compacts_can_stop_after_any_change() {
    let keys = ["a", "b", "c"];
    let mut files = BTreeMap::new();
    files.insert(
        s("1.dblog"),
        b"{\"Set\":[\"a\",\"0\"]}{\"Set\":[\"b\",\"0\"]}{\"Set\":[\"c\",\"0\"]}".to_vec(),
    );
    files.insert(s("2.dblog"), b"{\"Set\":[\"a\",\"1\"]}{\"Remove\":\"b\"}".to_vec());
    files.insert(s("3.dblog"), b"{\"Set\":[\"c\",\"2\"]}".to_vec());
    files.insert(s("logparts"), meta_text((1, 3), &[(3, 1), (2, 2)]));
    let mut store = KvStore::open("data", image(&files)).unwrap();
    let before = held(&mut store, &keys);
    store.set(s("b"), s("3")).unwrap();
    let after = held(&mut store, &keys);
    assert_eq!(before, vec![Some(s("1")), None, Some(s("2"))]);
    assert_eq!(after, vec![Some(s("1")), Some(s("3")), Some(s("2"))]);
    assert_eq!(store.log().len(), 3);
    let ops = store.take_journal();
    // The entry, the new partition with three entries, the metadata, and
    // three files deleted.
    assert_eq!(ops.len(), 9);
    stop_anywhere(&mut files, ops, &keys, &before, &after);
    assert_eq!(files.len(), 2);
}

#[test]
fn a_write_that_compacts_into_more_partitions_can_stop_after_any_change() {
    let keys = ["a"];
    let mut files = BTreeMap::new();
    files.insert(s("1.dblog"), Vec::new());
    files.insert(s("2.dblog"), Vec::new());
    files.insert(s("3.dblog"), b"{\"Set\":[\"a\",\"0\"]}".to_vec());
    files.insert(s("logparts"), meta_text((65535, 3), &[(0, 1), (0, 2)]));
    let mut store = KvStore::open("data", image(&files)).unwrap();
    let before = held(&mut store, &keys);
    // The entry goes into a fourth partition; then the log is compacted.
    store.set(s("a"), s("1")).unwrap();
    let after = held(&mut store, &keys);
    assert_eq!(before, vec![Some(s("0"))]);
    assert_eq!(after, vec![Some(s("1"))]);
    assert!(store.log().hist().is_empty());
    assert_eq!(store.log().len(), 1);
    stop_anywhere(&mut files, store.take_journal(), &keys, &before, &after);
    assert_eq!(files.len(), 2);
}

#[test]
fn closing_can_stop_after_any_change() {
    let keys = ["a"];
    let mut files = BTreeMap::new();
    let mut store = fresh();
    store.set(s("a"), s("1")).unwrap();
    apply(&mut files, store.take_journal());
    let before = held(&mut store, &keys);
    let mut dir = store.close();
    stop_anywhere(&mut files, dir.take_journal(), &keys, &before, &before);
}

/// A directory whose log has the empty sealed partitions 1 and 2 and the
/// empty active partition 3.
fn with_two_sealed_partitions() -> Directory {
    let mut dir = Directory::new();
    dir.load(s("1.dblog"), Vec::new());
    dir.load(s("2.dblog"), Vec::new());
    dir.load(s("3.dblog"), Vec::new());
    dir.load(s("logparts"), meta_text((0, 3), &[(0, 1), (0, 2)]));
    dir
}

#[test]
fn the_log_is_compacted_when_it_counts_more_than_twice_the_keys() {
    let mut store = KvStore::open("data", with_two_sealed_partitions()).unwrap();
    let keys = ["a", "b", "c"];
    // Six writes of three keys: as many entries as twice the keys.
    for i in 0..6 {
        store.set(s(keys[i % 3]), format!("{}", i)).unwrap();
        assert_eq!(store.log().len(), i + 1);
    }
    assert_eq!(store.log().hist().len(), 2);
    // The seventh write makes it more.
    store.set(s("a"), s("6")).unwrap();
    assert_eq!(store.log().len(), 3);
    assert_eq!(store.len(), 3);
    assert!(store.log().hist().is_empty());
    assert_eq!(store.get(s("a")), Ok(Some(s("6"))));
    assert_eq!(store.get(s("b")), Ok(Some(s("4"))));
    assert_eq!(store.get(s("c")), Ok(Some(s("5"))));
    let dir = store.log().directory();
    assert_eq!(dir.len(), 2);
    assert!(!dir.contains(&s("1.dblog")));
    assert!(!dir.contains(&s("2.dblog")));
    assert!(!dir.contains(&s("3.dblog")));
}

#[test]
fn three_keys_set_five_times_each_survive_compaction() {
    let mut store = KvStore::open("data", with_two_sealed_partitions()).unwrap();
    let keys = ["a", "b", "c"];
    let mut compacted = false;
    for round in 0..5 {
        for key in keys {
            store.set(s(key), format!("{}{}", key, round)).unwrap();
            if store.log().hist().is_empty() && !compacted {
                compacted = true;
                assert_eq!(store.log().len(), 3);
                assert_eq!(store.len(), 3);
            }
            for seen in keys {
                let value = store.get(s(seen)).unwrap();
                let last_round = if seen <= key { round as i32 } else { round as i32 - 1 };
                if last_round < 0 {
                    assert_eq!(value, None);
                } else {
                    assert_eq!(value, Some(format!("{}{}", seen, last_round)));
                }
            }
        }
    }
    assert!(compacted);
    assert_eq!(store.len(), 3);
    assert_eq!(store.get(s("a")), Ok(Some(s("a4"))));
    assert_eq!(store.get(s("b")), Ok(Some(s("b4"))));
    assert_eq!(store.get(s("c")), Ok(Some(s("c4"))));
    let mut store = KvStore::open("data", store.close()).unwrap();
    assert_eq!(store.get(s("a")), Ok(Some(s("a4"))));
    assert_eq!(store.get(s("b")), Ok(Some(s("b4"))));
    assert_eq!(store.get(s("c")), Ok(Some(s("c4"))));
    assert_eq!(store.len(), 3);
}

#[test]
fn compaction_drops_removed_keys() {
    let mut store = KvStore::open("data", with_two_sealed_partitions()).unwrap();
    store.set(s("a"), s("1")).unwrap();
    store.set(s("b"), s("2")).unwrap();
    store.remove(s("a")).unwrap();
    assert_eq!(store.log().len(), 3);
    // One key, three entries; a set checks and compacts.
    store.set(s("b"), s("3")).unwrap();
    assert_eq!(store.log().len(), 1);
    assert_eq!(store.len(), 1);
    assert_eq!(store.get(s("a")), Ok(None));
    assert_eq!(store.get(s("b")), Ok(Some(s("3"))));
    assert_eq!(
        store.log().directory().read(&store.log().active().file_name()),
        Some(&b"{\"Set\":[\"b\",\"3\"]}".to_vec())
    );
}

#[test]
fn no_compaction_with_one_sealed_partition() {
    let mut dir = Directory::new();
    dir.load(s("1.dblog"), Vec::new());
    dir.load(s("2.dblog"), Vec::new());
    dir.load(s("logparts"), meta_text((0, 2), &[(0, 1)]));
    let mut store = KvStore::open("data", dir).unwrap();
    for i in 0..30 {
        store.set(s("a"), format!("{}", i)).unwrap();
    }
    assert_eq!(store.log().len(), 30);
    assert_eq!(store.log().hist().len(), 1);
    assert_eq!(store.get(s("a")), Ok(Some(s("29"))));
}

#[test]
fn writes_beyond_two_full_partitions_compact_the_log() {
    let mut store = fresh();
    let keys = ["a", "b", "c"];
    let total = 2 * 65535 + 1;
    for i in 0..total {
        store.set(s(keys[i % 3]), format!("{}", i)).unwrap();
        if i % 4096 == 0 {
            store.take_journal();
        }
    }
    // The write that started the third partition found two sealed ones.
    assert_eq!(store.log().len(), 3);
    assert_eq!(store.len(), 3);
    assert!(store.log().hist().is_empty());
    assert_eq!(store.log().directory().len(), 2);
    for key in 0..3 {
        let last = (0..total).rev().find(|i| i % 3 == key).unwrap();
        assert_eq!(store.get(s(keys[key])), Ok(Some(format!("{}", last))));
    }
}

#[test]
fn opening_fails_where_a_partition_holds_bytes_that_are_no_entry() {
    let mut dir = Directory::new();
    dir.load(s("1.dblog"), b"{\"Set\":[\"a\",\"1\"]}{\"Set\":[\"b\"".to_vec());
    dir.load(s("logparts"), meta_text((1, 1), &[]));
    assert_eq!(
        KvStore::open("data", dir).err(),
        Some(KvsError::Serde(SerdeErrorKind::MalformedEntry))
    );
}

#[test]
fn opening_fails_where_the_log_cannot_be_opened() {
    let mut dir = Directory::new();
    dir.load(s("logparts"), b"not a description".to_vec());
    assert_eq!(
        KvStore::open("data", dir).err(),
        Some(KvsError::Serde(SerdeErrorKind::MalformedMetadata))
    );
    let mut dir = Directory::new();
    dir.load(s("logparts"), meta_text((0, 1), &[]));
    assert_eq!(KvStore::open("data", dir).err(), Some(KvsError::Io(IoErrorKind::NotFound)));
}

#[test]
fn opening_reads_a_log_that_was_written_with_white_space() {
    let mut dir = Directory::new();
    dir.load(
        s("1.dblog"),
        b"{\"Set\": [\"a\", \"1\"]}\n{\"Set\": [\"b\", \"2\"]}\n{\"Remove\": \"a\"}\n".to_vec(),
    );
    dir.load(s("logparts"), meta_text((3, 1), &[]));
    let mut store = KvStore::open("data", dir).unwrap();
    assert_eq!(store.len(), 1);
    assert_eq!(store.get(s("a")), Ok(None));
    assert_eq!(store.get(s("b")), Ok(Some(s("2"))));
    store.set(s("c"), s("3")).unwrap();
    assert_eq!(store.get(s("c")), Ok(Some(s("3"))));
    let mut store = KvStore::open("data", store.close()).unwrap();
    assert_eq!(store.get(s("b")), Ok(Some(s("2"))));
    assert_eq!(store.get(s("c")), Ok(Some(s("3"))));
}

#[test]
fn the_errors_describe_themselves() {
    assert_eq!(KvsError::KeyNotFound.message(), "Key not found");
    assert_eq!(KvsError::InvalidLogFileHandle.message(), "The Log file handle is not valid");
    assert_eq!(KvsError::Io(IoErrorKind::NotFound).message(), "file not found");
    assert_eq!(KvsError::Io(IoErrorKind::AlreadyExists).message(), "file already exists");
    assert_eq!(KvsError::Io(IoErrorKind::UnexpectedEof).message(), "unexpected end of file");
    assert_eq!(KvsError::Serde(SerdeErrorKind::MalformedEntry).message(), "malformed log entry");
    assert_eq!(
        KvsError::Serde(SerdeErrorKind::MalformedMetadata).message(),
        "malformed log metadata"
    );
}

#[test]
fn only_key_not_found_is_key_not_found() {
    assert!(KvsError::KeyNotFound.is_key_not_found());
    assert!(!KvsError::InvalidLogFileHandle.is_key_not_found());
    assert!(!KvsError::Io(IoErrorKind::NotFound).is_key_not_found());
    assert!(!KvsError::Serde(SerdeErrorKind::MalformedEntry).is_key_not_found());
}
