use kvs::kv::read_value;
use kvs::record::{
    decode_record, encode, find_literal_end, frame_rm, frame_set, read_string, same_record, seal,
    skip_token, write_record,
};
use kvs::cursor::BufReaderWithPos;
use kvs::replay::load;
use kvs::index::Index;
use kvs::{KvsError, MultipleCmd};

fn set(key: &str, value: &str) -> MultipleCmd {
    MultipleCmd::set(key.to_owned(), value.to_owned())
}

fn rm(key: &str) -> MultipleCmd {
    MultipleCmd::rm(key.to_owned())
}

#[test]
fn builders_make_the_two_kinds_of_record() {
    assert!(matches!(set("k", "v"), MultipleCmd::Put { key, value } if key == "k" && value == "v"));
    assert!(matches!(rm("k"), MultipleCmd::Rm { key } if key == "k"));
}

#[test]
fn set_record_is_a_json_object_named_set() {
    assert_eq!(
        encode(&set("k", "v1")).unwrap(),
        "{\"Set\":{\"key\":\"k\",\"value\":\"v1\"}}".as_bytes()
    );
}

#[test]
fn rm_record_is_a_json_object_named_rm() {
    assert_eq!(encode(&rm("k")).unwrap(), "{\"Rm\":{\"key\":\"k\"}}".as_bytes());
}

#[test]
fn strings_are_written_with_json_escapes() {
    assert_eq!(
        encode(&rm("a\"b\\c\nd\u{1}")).unwrap(),
        "{\"Rm\":{\"key\":\"a\\\"b\\\\c\\nd\\u0001\"}}".as_bytes()
    );
}

#[test]
fn a_record_is_written_as_it_is_sealed() {
    for cmd in [set("k", "v"), rm("k\n")] {
        assert_eq!(write_record(&cmd).unwrap(), encode(&cmd).unwrap());
    }
}

#[test]
fn frames_are_put_around_the_given_text() {
    assert_eq!(frame_set(b"K", b"V"), "{\"Set\":{\"key\":K,\"value\":V}}".as_bytes());
    assert_eq!(frame_rm(b"K"), "{\"Rm\":{\"key\":K}}".as_bytes());
}

#[test]
fn a_record_is_read_back_as_it_was_written() {
    for cmd in [set("k", "v"), rm("k"), set("", ""), set("\u{1F600}", "a\"}}b")] {
        let bytes = encode(&cmd).unwrap();
        let (found, end) = decode_record(&bytes, 0).unwrap();
        assert!(same_record(&found, &cmd));
        assert_eq!(end, bytes.len());
    }
}

#[test]
fn records_are_read_one_after_another() {
    let mut bytes = encode(&set("a", "1")).unwrap();
    let first = bytes.len();
    bytes.extend_from_slice(&encode(&rm("a")).unwrap());
    let (found, end) = decode_record(&bytes, 0).unwrap();
    assert!(same_record(&found, &set("a", "1")));
    assert_eq!(end, first);
    let (found, end) = decode_record(&bytes, first).unwrap();
    assert!(same_record(&found, &rm("a")));
    assert_eq!(end, bytes.len());
}

#[test]
fn escapes_are_read_as_the_characters_they_stand_for() {
    let bytes = "{\"Set\":{\"key\":\"\\u0041\\n\",\"value\":\"\\\"\\\\\"}}".as_bytes();
    let (found, end) = decode_record(bytes, 0).unwrap();
    assert!(same_record(&found, &set("A\n", "\"\\")));
    assert_eq!(end, bytes.len());
}

#[test]
fn bytes_that_are_no_record_are_refused() {
    let refused = [
        "",
        "{",
        "{\"Set\":{\"key\":\"k\"}}",
        "{\"Set\":{\"key\":\"k\",\"value\":\"v\"}",
        "{\"Set\":{\"value\":\"v\",\"key\":\"k\"}}",
        "{\"Rm\":{\"key\":k}}",
        "{\"Rm\":{\"key\":\"k}}",
        "{\"Rm\":{\"key\":\"k\\\"}}",
        "{\"rm\":{\"key\":\"k\"}}",
        " {\"Rm\":{\"key\":\"k\"}}",
        "{\"Rm\":{\"key\":\"a\tb\"}}",
    ];
    for text in refused {
        assert!(matches!(decode_record(text.as_bytes(), 0), Err(KvsError::Serde(_))), "{}", text);
    }
}

#[test]
fn a_record_is_not_read_from_its_middle() {
    let bytes = encode(&set("k", "v")).unwrap();
    assert!(matches!(decode_record(&bytes, 1), Err(KvsError::Serde(_))));
    assert!(matches!(decode_record(&bytes, bytes.len()), Err(KvsError::Serde(_))));
    assert!(matches!(decode_record(&bytes, bytes.len() + 5), Err(KvsError::Serde(_))));
}

#[test]
fn tokens_are_matched_in_place() {
    assert_eq!(skip_token(b"abcdef", 2, b"cd"), Some(4));
    assert_eq!(skip_token(b"abcdef", 2, b"ce"), None);
    assert_eq!(skip_token(b"abcdef", 5, b"fg"), None);
    assert_eq!(skip_token(b"abcdef", 7, b""), None);
    assert_eq!(skip_token(b"abcdef", 6, b""), Some(6));
}

#[test]
fn a_literal_ends_at_its_first_bare_quote() {
    assert_eq!(find_literal_end(b"\"ab\"cd", 1), Some(4));
    assert_eq!(find_literal_end(b"\"a\\\"b\"", 1), Some(6));
    assert_eq!(find_literal_end(b"\"a\\\\\"b\"", 1), Some(5));
    assert_eq!(find_literal_end(b"\"abc", 1), None);
    assert_eq!(find_literal_end(b"\"abc\\", 1), None);
    assert_eq!(find_literal_end(b"\"abc\\\"", 1), None);
}

#[test]
fn a_string_is_read_with_the_place_after_it() {
    let (s, end) = read_string(b"xx\"a\\tb\"yy", 2).unwrap();
    assert_eq!(s, "a\tb");
    assert_eq!(end, 8);
    assert!(matches!(read_string(b"xx\"a\"", 1), Err(KvsError::Serde(_))));
    assert!(matches!(read_string(b"\"\\x\"", 0), Err(KvsError::Serde(_))));
    assert!(matches!(read_string(b"\"\xff\"", 0), Err(KvsError::Serde(_))));
}

#[test]
fn seal_hands_back_what_reads_as_the_record() {
    let bytes = encode(&set("k", "v")).unwrap();
    assert_eq!(seal(&set("k", "v"), bytes.clone()).unwrap(), bytes);
    assert!(matches!(seal(&set("k", "w"), bytes.clone()), Err(KvsError::Serde(_))));
    assert!(matches!(seal(&rm("k"), bytes.clone()), Err(KvsError::Serde(_))));
    let mut longer = bytes.clone();
    longer.push(b' ');
    assert!(matches!(seal(&set("k", "v"), longer), Err(KvsError::Serde(_))));
    assert!(matches!(seal(&set("k", "v"), frame_set(b"k", b"v")), Err(KvsError::Serde(_))));
}

#[test]
fn value_is_read_out_of_a_set_record() {
    assert_eq!(read_value(&encode(&set("k", "v")).unwrap()).unwrap(), "v");
}

#[test]
fn rm_record_in_place_of_a_set_record_is_unexpected() {
    assert!(matches!(
        read_value(&encode(&rm("k")).unwrap()),
        Err(KvsError::UnexpectedCommandType)
    ));
}

#[test]
fn value_is_not_read_out_of_other_bytes() {
    let mut bytes = encode(&set("k", "v")).unwrap();
    bytes.push(b'}');
    assert!(matches!(read_value(&bytes), Err(KvsError::Serde(_))));
    assert!(matches!(read_value(b"{}"), Err(KvsError::Serde(_))));
    assert!(matches!(read_value(b""), Err(KvsError::Serde(_))));
}

#[test]
fn load_replays_a_log_into_the_index() {
    let mut bytes = encode(&set("a", "1")).unwrap();
    bytes.extend_from_slice(&encode(&set("b", "2")).unwrap());
    bytes.extend_from_slice(&encode(&set("a", "3")).unwrap());
    bytes.extend_from_slice(&encode(&rm("b")).unwrap());
    bytes.extend_from_slice(&encode(&rm("zz")).unwrap());
    let mut index = Index::new();
    let stale = load(9, &mut BufReaderWithPos::new(&bytes), &mut index).unwrap();
    assert_eq!(index.len(), 1);
    let a = index.get("a").unwrap();
    assert_eq!((a.log, a.pos, a.len), (9, 62, 31));
    assert!(index.get("b").is_none());
    assert_eq!(stale, 31 + (31 + 18) + 19);
}

#[test]
fn load_counts_records_of_earlier_logs_that_it_retires() {
    let mut index = Index::new();
    let first = encode(&set("a", "long value")).unwrap();
    let second = encode(&set("a", "1")).unwrap();
    assert_eq!(load(1, &mut BufReaderWithPos::new(&first), &mut index).unwrap(), 0);
    assert_eq!(load(2, &mut BufReaderWithPos::new(&second), &mut index).unwrap(), 40);
    let a = index.get("a").unwrap();
    assert_eq!((a.log, a.pos, a.len), (2, 0, 31));
}

#[test]
fn load_fails_on_a_torn_record() {
    let mut bytes = encode(&set("a", "1")).unwrap();
    bytes.extend_from_slice(&encode(&set("b", "2")).unwrap()[..10]);
    let mut index = Index::new();
    assert!(matches!(
        load(1, &mut BufReaderWithPos::new(&bytes), &mut index),
        Err(KvsError::Serde(_))
    ));
}

#[test]
fn load_reads_a_log_from_its_first_byte() {
    let bytes = encode(&set("a", "1")).unwrap();
    let mut reader = BufReaderWithPos::new(&bytes);
    reader.seek(7);
    let mut index = Index::new();
    assert_eq!(load(1, &mut reader, &mut index).unwrap(), 0);
    assert_eq!(index.get("a").map(|a| (a.pos, a.len)), Some((0, 31)));
    assert_eq!(reader.pos(), 31);
}

#[test]
fn load_of_an_empty_log_changes_nothing() {
    let mut index = Index::new();
    assert_eq!(load(1, &mut BufReaderWithPos::new(b""), &mut index).unwrap(), 0);
    assert_eq!(index.len(), 0);
}
