use kvs::{Directory, DiskOp, IoErrorKind};
use std::collections::BTreeMap;

fn s(text: &str) -> String {
    text.to_string()
}

fn apply(files: &mut BTreeMap<String, Vec<u8>>, ops: Vec<DiskOp>) {
    for op in ops {
        match op {
            DiskOp::Create { name } => {
                files.insert(name, Vec::new());
            }
            DiskOp::Append { name, bytes } => {
                if let Some(data) = files.get_mut(&name) {
                    data.extend_from_slice(&bytes);
                }
            }
            DiskOp::Write { name, bytes } => {
                files.insert(name, bytes);
            }
            DiskOp::Remove { name } => {
                files.remove(&name);
            }
        }
    }
}

#[test]
fn a_new_directory_is_empty() {
    let mut dir = Directory::new();
    assert_eq!(dir.len(), 0);
    assert!(!dir.contains(&s("a")));
    assert!(dir.read(&s("a")).is_none());
    assert!(dir.take_journal().is_empty());
}

#[test]
fn create_new_makes_an_empty_file_once() {
    let mut dir = Directory::new();
    assert_eq!(dir.create_new(s("a")), Ok(()));
    assert!(dir.contains(&s("a")));
    assert_eq!(dir.read(&s("a")), Some(&Vec::new()));
    assert_eq!(dir.len(), 1);
    assert_eq!(dir.create_new(s("a")), Err(IoErrorKind::AlreadyExists));
    assert_eq!(dir.len(), 1);
    assert_eq!(dir.take_journal(), vec![DiskOp::Create { name: s("a") }]);
}

#[test]
fn append_adds_at_the_end_and_returns_the_old_length() {
    let mut dir = Directory::new();
    dir.create_new(s("a")).unwrap();
    assert_eq!(dir.append(&s("a"), b"abc"), Ok(0));
    assert_eq!(dir.append(&s("a"), b""), Ok(3));
    assert_eq!(dir.append(&s("a"), b"de"), Ok(3));
    assert_eq!(dir.read(&s("a")), Some(&b"abcde".to_vec()));
    assert_eq!(dir.append(&s("b"), b"x"), Err(IoErrorKind::NotFound));
    assert!(!dir.contains(&s("b")));
}

#[test]
fn write_replaces_or_creates() {
    let mut dir = Directory::new();
    dir.write(s("a"), b"long text".to_vec());
    assert_eq!(dir.read(&s("a")), Some(&b"long text".to_vec()));
    dir.write(s("a"), b"x".to_vec());
    assert_eq!(dir.read(&s("a")), Some(&b"x".to_vec()));
    assert_eq!(dir.len(), 1);
}

#[test]
fn remove_deletes_the_file_and_no_other() {
    let mut dir = Directory::new();
    dir.write(s("a"), b"1".to_vec());
    dir.write(s("b"), b"2".to_vec());
    dir.write(s("c"), b"3".to_vec());
    assert_eq!(dir.remove(&s("b")), Ok(()));
    assert_eq!(dir.remove(&s("b")), Err(IoErrorKind::NotFound));
    assert_eq!(dir.len(), 2);
    assert_eq!(dir.read(&s("a")), Some(&b"1".to_vec()));
    assert_eq!(dir.read(&s("c")), Some(&b"3".to_vec()));
    assert!(dir.read(&s("b")).is_none());
}

#[test]
fn read_exact_at_needs_all_the_bytes() {
    let mut dir = Directory::new();
    dir.write(s("a"), b"0123456789".to_vec());
    assert_eq!(dir.read_exact_at(&s("a"), 2, 3), Ok(b"234".to_vec()));
    assert_eq!(dir.read_exact_at(&s("a"), 0, 10), Ok(b"0123456789".to_vec()));
    assert_eq!(dir.read_exact_at(&s("a"), 10, 0), Ok(Vec::new()));
    assert_eq!(dir.read_exact_at(&s("a"), 8, 3), Err(IoErrorKind::UnexpectedEof));
    assert_eq!(dir.read_exact_at(&s("a"), 11, 0), Err(IoErrorKind::UnexpectedEof));
    assert_eq!(dir.read_exact_at(&s("a"), u64::MAX, u64::MAX), Err(IoErrorKind::UnexpectedEof));
    assert_eq!(dir.read_exact_at(&s("b"), 0, 0), Err(IoErrorKind::NotFound));
}

#[test]
fn load_takes_files_without_writing_them_down() {
    let mut dir = Directory::new();
    assert!(dir.load(s("a"), b"1".to_vec()));
    assert!(dir.load(s("b"), b"2".to_vec()));
    assert!(dir.load(s("a"), b"3".to_vec()));
    assert_eq!(dir.len(), 2);
    assert_eq!(dir.read(&s("a")), Some(&b"3".to_vec()));
    assert!(dir.take_journal().is_empty());
}

#[test]
fn load_is_refused_while_changes_are_pending() {
    let mut dir = Directory::new();
    dir.create_new(s("a")).unwrap();
    assert!(!dir.load(s("b"), b"2".to_vec()));
    assert!(!dir.contains(&s("b")));
    dir.take_journal();
    assert!(dir.load(s("b"), b"2".to_vec()));
    assert!(dir.contains(&s("b")));
}

#[test]
fn the_journal_lists_the_changes_in_order() {
    let mut dir = Directory::new();
    dir.create_new(s("a")).unwrap();
    dir.append(&s("a"), b"xy").unwrap();
    dir.write(s("m"), b"meta".to_vec());
    dir.remove(&s("a")).unwrap();
    let ops = dir.take_journal();
    assert_eq!(
        ops,
        vec![
            DiskOp::Create { name: s("a") },
            DiskOp::Append { name: s("a"), bytes: b"xy".to_vec() },
            DiskOp::Write { name: s("m"), bytes: b"meta".to_vec() },
            DiskOp::Remove { name: s("a") },
        ]
    );
    assert!(dir.take_journal().is_empty());
}

#[test]
fn failed_changes_are_not_written_down() {
    let mut dir = Directory::new();
    dir.create_new(s("a")).unwrap();
    dir.take_journal();
    assert!(dir.create_new(s("a")).is_err());
    assert!(dir.append(&s("b"), b"x").is_err());
    assert!(dir.remove(&s("b")).is_err());
    assert!(dir.take_journal().is_empty());
}

#[test]
fn applying_the_journal_gives_the_files_of_the_image() {
    let mut dir = Directory::new();
    dir.load(s("old"), b"kept".to_vec());
    dir.load(s("gone"), b"x".to_vec());
    let mut files = BTreeMap::new();
    files.insert(s("old"), b"kept".to_vec());
    files.insert(s("gone"), b"x".to_vec());
    dir.create_new(s("a")).unwrap();
    dir.append(&s("a"), b"12").unwrap();
    dir.append(&s("old"), b"+more").unwrap();
    dir.remove(&s("gone")).unwrap();
    dir.write(s("a"), b"new".to_vec());
    dir.append(&s("a"), b"!").unwrap();
    apply(&mut files, dir.take_journal());
    assert_eq!(files.len(), dir.len());
    for (name, data) in &files {
        assert_eq!(dir.read(name), Some(data));
    }
    assert_eq!(files[&s("a")], b"new!".to_vec());
    assert_eq!(files[&s("old")], b"kept+more".to_vec());
}
