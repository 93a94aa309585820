use kvs::names::{join_path, push_hex};
use kvs::{meta_file_path, LogPartition};

#[test]
fn build_file_name_writes_lower_case_hex() {
    assert_eq!(LogPartition::build_file_name(255), "ff.dblog");
    assert_eq!(LogPartition::build_file_name(0x1a2b), "1a2b.dblog");
    assert_eq!(LogPartition::build_file_name(16), "10.dblog");
}

#[test]
fn build_file_name_of_zero_is_one_digit() {
    assert_eq!(LogPartition::build_file_name(0), "0.dblog");
}

#[test]
fn build_file_name_of_the_largest_id_has_32_digits() {
    assert_eq!(
        LogPartition::build_file_name(u128::MAX),
        "ffffffffffffffffffffffffffffffff.dblog"
    );
}

#[test]
fn build_file_name_agrees_with_hex_formatting() {
    let ids: [u128; 6] = [1, 9, 10, 15, 1_700_000_000_000_000_000, u128::MAX - 1];
    for id in ids {
        assert_eq!(LogPartition::build_file_name(id), format!("{:x}.dblog", id));
        let mut digits = String::from("id ");
        push_hex(&mut digits, id);
        assert_eq!(digits, format!("id {:x}", id));
    }
}

#[test]
fn file_name_is_built_from_the_file_id() {
    let partition = LogPartition { entry_count: 7, file_id: 0xabc };
    assert_eq!(partition.file_name(), "abc.dblog");
}

#[test]
fn different_ids_have_different_file_names() {
    let a = LogPartition::build_file_name(0x10);
    let b = LogPartition::build_file_name(0x100);
    let c = LogPartition::build_file_name(0x1);
    assert_ne!(a, b);
    assert_ne!(a, c);
    assert_ne!(b, c);
}

#[test]
fn full_path_puts_the_file_into_the_directory() {
    let partition = LogPartition { entry_count: 0, file_id: 255 };
    assert_eq!(partition.full_path("data"), "data/ff.dblog");
    assert_eq!(partition.full_path("/var/lib/kvs"), "/var/lib/kvs/ff.dblog");
}

#[test]
fn full_path_adds_no_second_separator() {
    let partition = LogPartition { entry_count: 0, file_id: 255 };
    assert_eq!(partition.full_path("data/"), "data/ff.dblog");
    assert_eq!(partition.full_path("/"), "/ff.dblog");
}

#[test]
fn full_path_in_the_empty_directory_is_the_file_name() {
    let partition = LogPartition { entry_count: 0, file_id: 255 };
    assert_eq!(partition.full_path(""), "ff.dblog");
}

#[test]
fn meta_file_path_names_logparts() {
    assert_eq!(meta_file_path("data"), "data/logparts");
    assert_eq!(meta_file_path("data/"), "data/logparts");
    assert_eq!(meta_file_path(""), "logparts");
}

#[test]
fn join_path_of_a_directory_with_other_letters() {
    assert_eq!(join_path("données", "x"), "données/x");
}
