use kvs::index::Index;
use kvs::LogPointer;

fn s(text: &str) -> String {
    text.to_string()
}

fn ptr(n: u64) -> LogPointer {
    LogPointer { file_id: 1, offset: n, len: 1 }
}

#[test]
fn a_new_index_holds_nothing() {
    let index = Index::new();
    assert_eq!(index.len(), 0);
    assert_eq!(index.get(&s("a")), None);
    assert!(!index.contains_key(&s("a")));
    assert!(index.pointers().is_empty());
}

#[test]
fn insert_adds_or_replaces() {
    let mut index = Index::new();
    index.insert(s("a"), ptr(1));
    index.insert(s("b"), ptr(2));
    index.insert(s("a"), ptr(3));
    assert_eq!(index.len(), 2);
    assert_eq!(index.get(&s("a")), Some(ptr(3)));
    assert_eq!(index.get(&s("b")), Some(ptr(2)));
    assert_eq!(index.get(&s("c")), None);
    assert!(index.contains_key(&s("a")));
}

#[test]
fn remove_takes_out_the_key_and_no_other() {
    let mut index = Index::new();
    for (i, key) in ["a", "b", "c", "d", "e"].iter().enumerate() {
        index.insert(s(key), ptr(i as u64));
    }
    assert!(index.remove(&s("b")));
    assert!(!index.remove(&s("b")));
    assert!(!index.remove(&s("z")));
    assert!(index.remove(&s("e")));
    assert!(index.remove(&s("a")));
    assert_eq!(index.len(), 2);
    assert_eq!(index.get(&s("c")), Some(ptr(2)));
    assert_eq!(index.get(&s("d")), Some(ptr(3)));
    assert_eq!(index.get(&s("a")), None);
    assert_eq!(index.get(&s("b")), None);
    assert_eq!(index.get(&s("e")), None);
    assert!(index.remove(&s("c")));
    assert!(index.remove(&s("d")));
    assert_eq!(index.len(), 0);
}

#[test]
fn pointers_lists_each_place_once() {
    let mut index = Index::new();
    for i in 0..10u64 {
        index.insert(format!("key{}", i), ptr(i));
    }
    index.remove(&s("key3"));
    index.remove(&s("key0"));
    index.insert(s("key5"), ptr(50));
    let mut offsets: Vec<u64> = index.pointers().iter().map(|p| p.offset).collect();
    offsets.sort();
    assert_eq!(offsets, vec![1, 2, 4, 6, 7, 8, 9, 50]);
}
