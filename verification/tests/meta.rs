use kvs::meta::{decode_meta, encode_meta, LogMeta};
use kvs::{KvsError, LogPartition, SerdeErrorKind};

fn part(entry_count: u16, file_id: u128) -> LogPartition {
    LogPartition { entry_count, file_id }
}

fn malformed(bytes: &[u8]) -> bool {
    decode_meta(bytes) == Err(KvsError::Serde(SerdeErrorKind::MalformedMetadata))
}

#[test]
fn a_log_without_history_is_written_with_an_empty_list() {
    let meta = LogMeta { dirname: "data".to_string(), active: part(0, 255), hist: vec![] };
    assert_eq!(
        encode_meta(&meta).unwrap(),
        b"{\"dirname\":\"data\",\"active\":{\"entry_count\":0,\"file_id\":255},\"hist\":[]}"
            .to_vec()
    );
}

#[test]
fn the_history_is_written_oldest_first() {
    let meta = LogMeta {
        dirname: "/var/kvs".to_string(),
        active: part(12, 1_700_000_000_000_000_003),
        hist: vec![part(65535, 1_700_000_000_000_000_001), part(65535, 1_700_000_000_000_000_002)],
    };
    let text = String::from_utf8(encode_meta(&meta).unwrap()).unwrap();
    assert_eq!(
        text,
        "{\"dirname\":\"/var/kvs\",\
         \"active\":{\"entry_count\":12,\"file_id\":1700000000000000003},\
         \"hist\":[{\"entry_count\":65535,\"file_id\":1700000000000000001},\
         {\"entry_count\":65535,\"file_id\":1700000000000000002}]}"
    );
}

#[test]
fn the_largest_numbers_are_written_in_full() {
    let meta = LogMeta {
        dirname: String::new(),
        active: part(u16::MAX, u128::MAX),
        hist: vec![part(0, 0)],
    };
    let text = String::from_utf8(encode_meta(&meta).unwrap()).unwrap();
    assert_eq!(
        text,
        "{\"dirname\":\"\",\
         \"active\":{\"entry_count\":65535,\"file_id\":340282366920938463463374607431768211455},\
         \"hist\":[{\"entry_count\":0,\"file_id\":0}]}"
    );
}

#[test]
fn the_directory_name_is_escaped() {
    let meta = LogMeta { dirname: "a\"b\\c".to_string(), active: part(1, 2), hist: vec![] };
    let text = String::from_utf8(encode_meta(&meta).unwrap()).unwrap();
    assert_eq!(
        text,
        "{\"dirname\":\"a\\\"b\\\\c\",\"active\":{\"entry_count\":1,\"file_id\":2},\"hist\":[]}"
    );
}

#[test]
fn a_written_description_reads_back() {
    let metas = vec![
        LogMeta { dirname: "data".to_string(), active: part(0, 1), hist: vec![] },
        LogMeta { dirname: "d\n\"x/é".to_string(), active: part(7, 99), hist: vec![part(65535, 3)] },
        LogMeta {
            dirname: String::new(),
            active: part(u16::MAX, u128::MAX),
            hist: vec![part(1, 10), part(2, 20), part(3, 30), part(0, 0)],
        },
    ];
    for meta in metas {
        let text = encode_meta(&meta).unwrap();
        assert_eq!(decode_meta(&text), Ok(meta));
    }
}

#[test]
fn decode_reads_a_description() {
    let bytes =
        b"{\"dirname\":\"d\",\"active\":{\"entry_count\":5,\"file_id\":16},\"hist\":[{\"entry_count\":65535,\"file_id\":15}]}";
    assert_eq!(
        decode_meta(bytes),
        Ok(LogMeta { dirname: "d".to_string(), active: part(5, 16), hist: vec![part(65535, 15)] })
    );
}

#[test]
fn decode_meta_skips_white_space_between_tokens() {
    let bytes = b" {\n  \"dirname\" : \"d\" ,\n  \"active\" : { \"entry_count\" : 5 , \"file_id\" : 16 } ,\n  \"hist\" : [ { \"entry_count\" : 1 , \"file_id\" : 2 } , { \"entry_count\" : 3 , \"file_id\" : 4 } ]\n}\n";
    assert_eq!(
        decode_meta(bytes),
        Ok(LogMeta {
            dirname: "d".to_string(),
            active: part(5, 16),
            hist: vec![part(1, 2), part(3, 4)],
        })
    );
}

#[test]
fn decode_refuses_what_is_not_a_description() {
    assert!(malformed(b""));
    assert!(malformed(b"{}"));
    assert!(malformed(b"null"));
    assert!(malformed(b"{\"dirname\":\"d\"}"));
    assert!(malformed(
        b"{\"dirname\":\"d\",\"active\":{\"entry_count\":5,\"file_id\":16},\"hist\":[]"
    ));
    assert!(malformed(
        b"{\"dirname\":\"d\",\"active\":{\"entry_count\":5,\"file_id\":16},\"hist\":[]}x"
    ));
    assert!(malformed(
        b"{\"dirname\":\"d\",\"active\":{\"entry_count\":5,\"file_id\":16},\"hist\":[,]}"
    ));
    assert!(malformed(
        b"{\"dirname\":\"d\",\"active\":{\"entry_count\":5,\"file_id\":16},\"hist\":[{\"entry_count\":1,\"file_id\":2},]}"
    ));
    assert!(malformed(
        b"{\"dirname\":7,\"active\":{\"entry_count\":5,\"file_id\":16},\"hist\":[]}"
    ));
    assert!(malformed(
        b"{\"dirname\":\"d\",\"active\":{\"file_id\":16,\"entry_count\":5},\"hist\":[]}"
    ));
    assert!(malformed(
        b"{\"active\":{\"entry_count\":5,\"file_id\":16},\"dirname\":\"d\",\"hist\":[]}"
    ));
}

#[test]
fn decode_refuses_numbers_that_do_not_fit() {
    assert!(malformed(
        b"{\"dirname\":\"d\",\"active\":{\"entry_count\":65536,\"file_id\":16},\"hist\":[]}"
    ));
    assert!(malformed(
        b"{\"dirname\":\"d\",\"active\":{\"entry_count\":5,\"file_id\":340282366920938463463374607431768211456},\"hist\":[]}"
    ));
    assert!(malformed(
        b"{\"dirname\":\"d\",\"active\":{\"entry_count\":5,\"file_id\":99999999999999999999999999999999999999999999},\"hist\":[]}"
    ));
}

#[test]
fn decode_refuses_numbers_that_are_not_plain() {
    assert!(malformed(
        b"{\"dirname\":\"d\",\"active\":{\"entry_count\":05,\"file_id\":16},\"hist\":[]}"
    ));
    assert!(malformed(
        b"{\"dirname\":\"d\",\"active\":{\"entry_count\":-5,\"file_id\":16},\"hist\":[]}"
    ));
    assert!(malformed(
        b"{\"dirname\":\"d\",\"active\":{\"entry_count\":5.0,\"file_id\":16},\"hist\":[]}"
    ));
    assert!(malformed(
        b"{\"dirname\":\"d\",\"active\":{\"entry_count\":,\"file_id\":16},\"hist\":[]}"
    ));
    assert!(malformed(
        b"{\"dirname\":\"d\",\"active\":{\"entry_count\":\"5\",\"file_id\":16},\"hist\":[]}"
    ));
}

#[test]
fn decode_reads_the_limits() {
    let bytes = b"{\"dirname\":\"\",\"active\":{\"entry_count\":65535,\"file_id\":340282366920938463463374607431768211455},\"hist\":[]}";
    assert_eq!(
        decode_meta(bytes),
        Ok(LogMeta { dirname: String::new(), active: part(65535, u128::MAX), hist: vec![] })
    );
    let bytes = b"{\"dirname\":\"\",\"active\":{\"entry_count\":0,\"file_id\":0},\"hist\":[]}";
    assert_eq!(
        decode_meta(bytes),
        Ok(LogMeta { dirname: String::new(), active: part(0, 0), hist: vec![] })
    );
}
