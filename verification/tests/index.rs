use kvs::index::{order_of, Index, KeyOrder};
use kvs::logdir::LogDir;
use kvs::{new_log_file, FileOp, RecordArgs};

fn args(log: u64, pos: u64, len: u64) -> RecordArgs {
    RecordArgs { log, pos, len }
}

#[test]
fn place_is_made_of_a_range() {
    assert_eq!(RecordArgs::from((3, 10..25)), args(3, 10, 15));
    assert_eq!(RecordArgs::from((1, 7..7)), args(1, 7, 0));
}

#[test]
fn byte_strings_are_ordered_byte_by_byte() {
    assert!(matches!(order_of(b"a", b"b"), KeyOrder::Before));
    assert!(matches!(order_of(b"b", b"a"), KeyOrder::After));
    assert!(matches!(order_of(b"ab", b"ab"), KeyOrder::Same));
    assert!(matches!(order_of(b"a", b"ab"), KeyOrder::Before));
    assert!(matches!(order_of(b"ab", b"a"), KeyOrder::After));
    assert!(matches!(order_of(b"", b""), KeyOrder::Same));
    assert!(matches!(order_of(b"", b"\0"), KeyOrder::Before));
    assert!(matches!(order_of(b"Z", b"a"), KeyOrder::Before));
    assert!(matches!(order_of(b"a\xff", b"b"), KeyOrder::Before));
}

#[test]
fn index_keeps_its_keys_in_order() {
    let mut index = Index::new();
    for key in ["m", "c", "x", "a", "mm", ""] {
        assert_eq!(index.insert(key.to_owned(), args(1, 0, 1)), None);
    }
    let keys: Vec<&str> = (0..index.len()).map(|i| index.entry(i).key.as_str()).collect();
    assert_eq!(keys, vec!["", "a", "c", "m", "mm", "x"]);
}

#[test]
fn insert_returns_the_place_that_the_key_had() {
    let mut index = Index::new();
    assert_eq!(index.insert("k".to_owned(), args(1, 0, 5)), None);
    assert_eq!(index.insert("k".to_owned(), args(2, 7, 9)), Some(args(1, 0, 5)));
    assert_eq!(index.get("k"), Some(args(2, 7, 9)));
    assert_eq!(index.len(), 1);
}

#[test]
fn remove_returns_the_place_that_the_key_had() {
    let mut index = Index::new();
    index.insert("a".to_owned(), args(1, 0, 5));
    index.insert("b".to_owned(), args(1, 5, 6));
    assert_eq!(index.remove("a"), Some(args(1, 0, 5)));
    assert_eq!(index.remove("a"), None);
    assert_eq!(index.get("a"), None);
    assert_eq!(index.get("b"), Some(args(1, 5, 6)));
    assert_eq!(index.len(), 1);
}

#[test]
fn find_gives_the_place_of_a_key_in_the_order() {
    let mut index = Index::new();
    for key in ["b", "d", "f"] {
        index.insert(key.to_owned(), args(1, 0, 1));
    }
    assert_eq!(index.find("b"), Ok(0));
    assert_eq!(index.find("f"), Ok(2));
    assert_eq!(index.find("a"), Err(0));
    assert_eq!(index.find("c"), Err(1));
    assert_eq!(index.find("g"), Err(3));
}

#[test]
fn push_last_adds_after_the_last_key() {
    let mut index = Index::new();
    index.push_last("a".to_owned(), args(1, 0, 1));
    index.push_last("b".to_owned(), args(1, 1, 2));
    assert_eq!(index.get("b"), Some(args(1, 1, 2)));
    assert_eq!(index.entry(1).key, "b");
}

#[test]
fn directory_keeps_its_logs_by_generation() {
    let mut dir = LogDir::new();
    dir.insert(5, b"five".to_vec());
    dir.insert(2, b"two".to_vec());
    dir.insert(9, b"nine".to_vec());
    assert_eq!(dir.len(), 3);
    assert_eq!((dir.gen_at(0), dir.gen_at(1), dir.gen_at(2)), (2, 5, 9));
    assert_eq!(dir.bytes_at(1).as_slice(), b"five");
    assert_eq!(dir.find(9), Some(2));
    assert_eq!(dir.find(3), None);
    assert_eq!(dir.max_gen(), Some(9));
}

#[test]
fn directory_replaces_the_log_of_a_generation() {
    let mut dir = LogDir::new();
    dir.insert(5, b"old".to_vec());
    dir.insert(5, b"new".to_vec());
    assert_eq!(dir.len(), 1);
    assert_eq!(dir.bytes_at(0).as_slice(), b"new");
}

#[test]
fn empty_directory_has_no_highest_generation() {
    let dir = LogDir::new();
    assert_eq!(dir.len(), 0);
    assert_eq!(dir.max_gen(), None);
    assert_eq!(dir.find(1), None);
}

#[test]
fn bytes_are_appended_to_the_last_log() {
    let mut dir = LogDir::new();
    dir.insert(1, b"a".to_vec());
    dir.push_log(4);
    dir.append_last(b"bc");
    dir.append_last(b"d");
    assert_eq!(dir.bytes_at(0).as_slice(), b"a");
    assert_eq!(dir.bytes_at(1).as_slice(), b"bcd");
    assert_eq!(dir.gen_at(1), 4);
}

#[test]
fn new_log_file_adds_an_empty_log() {
    let mut dir = LogDir::new();
    dir.insert(1, b"a".to_vec());
    let op = new_log_file(&mut dir, 2);
    assert!(matches!(op, FileOp::Create { gen: 2 }));
    assert_eq!(dir.len(), 2);
    assert_eq!(dir.bytes_at(1).len(), 0);
}
