use kvs::{FileOp, KvStore, KvsError, LogDir, COMPACTION_THRESHOLD};
use std::collections::BTreeMap;

type Disk = BTreeMap<u64, Vec<u8>>;

/// Does to a directory, played by a map, what the file operations say.
fn persist(disk: &mut Disk, ops: Vec<FileOp>) {
    for op in ops {
        match op {
            FileOp::Create { gen } => {
                disk.entry(gen).or_insert_with(Vec::new);
            }
            FileOp::Append { gen, bytes } => {
                disk.entry(gen).or_insert_with(Vec::new).extend_from_slice(&bytes);
            }
            FileOp::Remove { gen } => {
                disk.remove(&gen);
            }
        }
    }
}

fn image(disk: &Disk) -> LogDir {
    let mut dir = LogDir::new();
    for (gen, bytes) in disk {
        dir.insert(*gen, bytes.clone());
    }
    dir
}

fn open(disk: &mut Disk) -> KvStore {
    let (store, ops) = KvStore::open(image(disk)).unwrap();
    persist(disk, ops);
    store
}

fn set(disk: &mut Disk, store: &mut KvStore, key: &str, value: &str) {
    let ops = store.set(key.to_owned(), value.to_owned()).unwrap();
    persist(disk, ops);
}

fn remove(disk: &mut Disk, store: &mut KvStore, key: &str) {
    let ops = store.remove(key.to_owned()).unwrap();
    persist(disk, ops);
}

fn get(store: &KvStore, key: &str) -> Option<String> {
    store.get(key.to_owned()).unwrap()
}

fn same_as_image(disk: &Disk, store: &KvStore) -> bool {
    let dir = store.dir();
    if dir.len() != disk.len() {
        return false;
    }
    for i in 0..dir.len() {
        if disk.get(&dir.gen_at(i)) != Some(dir.bytes_at(i)) {
            return false;
        }
    }
    true
}

fn total_bytes(disk: &Disk) -> u64 {
    disk.values().map(|bytes| bytes.len() as u64).sum()
}

fn live_bytes(store: &KvStore) -> u64 {
    let records = store.records();
    (0..records.len()).map(|i| records.entry(i).args.len).sum()
}

#[test]
fn set_then_get() {
    let mut disk = Disk::new();
    let mut store = open(&mut disk);
    set(&mut disk, &mut store, "k", "v1");
    assert_eq!(get(&store, "k"), Some("v1".to_owned()));
    assert!(same_as_image(&disk, &store));
}

#[test]
fn last_set_wins() {
    let mut disk = Disk::new();
    let mut store = open(&mut disk);
    set(&mut disk, &mut store, "k", "v1");
    set(&mut disk, &mut store, "k", "v2");
    assert_eq!(get(&store, "k"), Some("v2".to_owned()));
}

#[test]
fn removed_key_is_gone() {
    let mut disk = Disk::new();
    let mut store = open(&mut disk);
    set(&mut disk, &mut store, "k", "v");
    remove(&mut disk, &mut store, "k");
    assert_eq!(get(&store, "k"), None);
}

#[test]
fn removed_key_stays_gone_until_set_again() {
    let mut disk = Disk::new();
    let mut store = open(&mut disk);
    set(&mut disk, &mut store, "k", "v");
    remove(&mut disk, &mut store, "k");
    set(&mut disk, &mut store, "other", "x");
    assert_eq!(get(&store, "k"), None);
    let store = open(&mut disk);
    assert_eq!(get(&store, "k"), None);
    let mut store = store;
    set(&mut disk, &mut store, "k", "again");
    assert_eq!(get(&store, "k"), Some("again".to_owned()));
}

#[test]
fn remove_of_absent_key_fails() {
    let mut disk = Disk::new();
    let mut store = open(&mut disk);
    assert!(matches!(store.remove("absent".to_owned()), Err(KvsError::KeyNotFound)));
    assert_eq!(disk.get(&1).unwrap().len(), 0);
    assert_eq!(store.stale_bytes(), 0);
    assert!(same_as_image(&disk, &store));
}

#[test]
fn remove_twice_fails_the_second_time() {
    let mut disk = Disk::new();
    let mut store = open(&mut disk);
    set(&mut disk, &mut store, "k", "v");
    remove(&mut disk, &mut store, "k");
    assert!(matches!(store.remove("k".to_owned()), Err(KvsError::KeyNotFound)));
}

#[test]
fn get_of_absent_key_is_none() {
    let mut disk = Disk::new();
    let store = open(&mut disk);
    assert_eq!(get(&store, "absent"), None);
}

#[test]
fn reopened_store_has_the_value() {
    let mut disk = Disk::new();
    {
        let mut store = open(&mut disk);
        set(&mut disk, &mut store, "k", "v");
    }
    let store = open(&mut disk);
    assert_eq!(get(&store, "k"), Some("v".to_owned()));
}

#[test]
fn reopened_store_answers_as_the_closed_one() {
    let mut disk = Disk::new();
    let mut store = open(&mut disk);
    set(&mut disk, &mut store, "a", "1");
    set(&mut disk, &mut store, "b", "2");
    set(&mut disk, &mut store, "a", "3");
    remove(&mut disk, &mut store, "b");
    set(&mut disk, &mut store, "c", "4");
    let reopened = open(&mut disk);
    for key in ["a", "b", "c", "d"] {
        assert_eq!(get(&reopened, key), get(&store, key));
    }
    assert_eq!(reopened.stale_bytes(), store.stale_bytes());
}

#[test]
fn open_of_an_empty_directory_appends_to_generation_one() {
    let mut disk = Disk::new();
    let (store, ops) = KvStore::open(image(&disk)).unwrap();
    assert_eq!(store.current_gen(), 1);
    assert_eq!(ops.len(), 1);
    assert!(matches!(ops[0], FileOp::Create { gen: 1 }));
    persist(&mut disk, ops);
    assert_eq!(disk.keys().copied().collect::<Vec<u64>>(), vec![1]);
}

#[test]
fn open_appends_to_the_generation_after_the_highest() {
    let mut disk = Disk::new();
    disk.insert(3, Vec::new());
    disk.insert(7, Vec::new());
    let store = open(&mut disk);
    assert_eq!(store.current_gen(), 8);
    assert_eq!(disk.keys().copied().collect::<Vec<u64>>(), vec![3, 7, 8]);
}

#[test]
fn generations_go_up_from_open_to_open() {
    let mut disk = Disk::new();
    let mut highest = 0;
    for round in 0..4 {
        let mut store = open(&mut disk);
        assert!(store.current_gen() > highest);
        set(&mut disk, &mut store, "k", "v");
        if round % 2 == 0 {
            persist(&mut disk, store.compact().unwrap());
        }
        highest = *disk.keys().max().unwrap();
        assert_eq!(highest, store.current_gen());
    }
}

#[test]
fn later_generations_are_replayed_later() {
    let mut disk = Disk::new();
    disk.insert(2, "{\"Set\":{\"key\":\"k\",\"value\":\"new\"}}".as_bytes().to_vec());
    disk.insert(1, "{\"Set\":{\"key\":\"k\",\"value\":\"old\"}}".as_bytes().to_vec());
    let store = open(&mut disk);
    assert_eq!(get(&store, "k"), Some("new".to_owned()));
    assert_eq!(store.stale_bytes(), 33);
}

#[test]
fn open_fails_on_a_log_that_is_no_run_of_records() {
    let mut disk = Disk::new();
    disk.insert(1, "{\"Set\":{\"key\":\"k\",\"value\":\"v\"}}{\"Set\":{\"key\":".as_bytes().to_vec());
    assert!(matches!(KvStore::open(image(&disk)), Err(KvsError::Serde(_))));
}

#[test]
fn open_fails_on_an_unknown_kind_of_record() {
    let mut disk = Disk::new();
    disk.insert(1, "{\"Get\":{\"key\":\"k\"}}".as_bytes().to_vec());
    assert!(matches!(KvStore::open(image(&disk)), Err(KvsError::Serde(_))));
}

#[test]
fn open_fails_on_a_string_that_is_no_json() {
    let mut disk = Disk::new();
    disk.insert(1, "{\"Rm\":{\"key\":\"\\q\"}}".as_bytes().to_vec());
    assert!(matches!(KvStore::open(image(&disk)), Err(KvsError::Serde(_))));
}

#[test]
fn record_bytes_are_json() {
    let mut disk = Disk::new();
    let mut store = open(&mut disk);
    set(&mut disk, &mut store, "k", "a\"b");
    remove(&mut disk, &mut store, "k");
    assert_eq!(
        disk.get(&1).unwrap().as_slice(),
        "{\"Set\":{\"key\":\"k\",\"value\":\"a\\\"b\"}}{\"Rm\":{\"key\":\"k\"}}".as_bytes()
    );
}

#[test]
fn index_points_at_the_latest_record() {
    let mut disk = Disk::new();
    let mut store = open(&mut disk);
    set(&mut disk, &mut store, "k", "v1");
    set(&mut disk, &mut store, "k", "v2");
    let args = store.records().get("k").unwrap();
    assert_eq!((args.log, args.pos, args.len), (1, 32, 32));
    assert_eq!(store.records().len(), 1);
}

#[test]
fn stale_bytes_count_overwritten_and_removed_records() {
    let mut disk = Disk::new();
    let mut store = open(&mut disk);
    set(&mut disk, &mut store, "k", "v1");
    assert_eq!(store.stale_bytes(), 0);
    set(&mut disk, &mut store, "k", "v2");
    assert_eq!(store.stale_bytes(), 32);
    remove(&mut disk, &mut store, "k");
    assert_eq!(store.stale_bytes(), 32 + 32 + 18);
    assert_eq!(total_bytes(&disk), store.stale_bytes() + live_bytes(&store));
    let reopened = open(&mut disk);
    assert_eq!(reopened.stale_bytes(), 82);
}

#[test]
fn compaction_packs_the_live_records_in_key_order() {
    let mut disk = Disk::new();
    let mut store = open(&mut disk);
    set(&mut disk, &mut store, "b", "1");
    set(&mut disk, &mut store, "a", "2");
    set(&mut disk, &mut store, "b", "3");
    set(&mut disk, &mut store, "c", "4");
    remove(&mut disk, &mut store, "c");
    let ops = store.compact().unwrap();
    persist(&mut disk, ops);
    assert!(same_as_image(&disk, &store));
    assert_eq!(disk.keys().copied().collect::<Vec<u64>>(), vec![2, 3]);
    assert_eq!(
        disk.get(&2).unwrap().as_slice(),
        "{\"Set\":{\"key\":\"a\",\"value\":\"2\"}}{\"Set\":{\"key\":\"b\",\"value\":\"3\"}}"
            .as_bytes()
    );
    assert_eq!(disk.get(&3).unwrap().len(), 0);
    assert_eq!(store.current_gen(), 3);
    assert_eq!(store.stale_bytes(), 0);
    let a = store.records().get("a").unwrap();
    let b = store.records().get("b").unwrap();
    assert_eq!((a.log, a.pos, a.len), (2, 0, 31));
    assert_eq!((b.log, b.pos, b.len), (2, 31, 31));
    assert_eq!(get(&store, "a"), Some("2".to_owned()));
    assert_eq!(get(&store, "b"), Some("3".to_owned()));
    assert_eq!(get(&store, "c"), None);
}

#[test]
fn compaction_ops_create_fill_and_delete() {
    let mut disk = Disk::new();
    disk.insert(4, Vec::new());
    let mut store = open(&mut disk);
    set(&mut disk, &mut store, "k", "v");
    let ops = store.compact().unwrap();
    assert_eq!(ops.len(), 5);
    assert!(matches!(ops[0], FileOp::Create { gen: 7 }));
    assert!(matches!(ops[1], FileOp::Create { gen: 6 }));
    assert!(matches!(&ops[2], FileOp::Append { gen: 6, bytes } if bytes.len() == 31));
    assert!(matches!(ops[3], FileOp::Remove { gen: 4 }));
    assert!(matches!(ops[4], FileOp::Remove { gen: 5 }));
}

#[test]
fn writes_after_compaction_go_to_the_new_active_log() {
    let mut disk = Disk::new();
    let mut store = open(&mut disk);
    set(&mut disk, &mut store, "k", "v");
    persist(&mut disk, store.compact().unwrap());
    set(&mut disk, &mut store, "n", "w");
    assert_eq!(disk.get(&3).unwrap().len(), 31);
    let args = store.records().get("n").unwrap();
    assert_eq!((args.log, args.pos, args.len), (3, 0, 31));
    assert!(same_as_image(&disk, &store));
}

#[test]
fn compaction_of_an_empty_store() {
    let mut disk = Disk::new();
    let mut store = open(&mut disk);
    persist(&mut disk, store.compact().unwrap());
    assert_eq!(disk.keys().copied().collect::<Vec<u64>>(), vec![2, 3]);
    assert_eq!(total_bytes(&disk), 0);
    assert_eq!(get(&store, "k"), None);
}

#[test]
fn settle_leaves_a_store_below_the_threshold_alone() {
    let mut disk = Disk::new();
    let mut store = open(&mut disk);
    set(&mut disk, &mut store, "k", "v1");
    set(&mut disk, &mut store, "k", "v2");
    assert!(store.settle().is_empty());
    assert_eq!(store.current_gen(), 1);
    assert_eq!(store.stale_bytes(), 32);
}

#[test]
fn store_compacts_when_the_stale_bytes_reach_the_threshold() {
    let mut disk = Disk::new();
    let mut store = open(&mut disk);
    let value = "x".repeat(1024);
    let record_len = (14 + 3 + 9 + 2 + 1024 + 2) as u64;
    set(&mut disk, &mut store, "k", &value);
    let mut stale = 0;
    while stale + record_len < COMPACTION_THRESHOLD {
        set(&mut disk, &mut store, "k", &value);
        stale += record_len;
        assert_eq!(store.stale_bytes(), stale);
        assert_eq!(store.current_gen(), 1);
    }
    set(&mut disk, &mut store, "k", &value);
    assert_eq!(store.stale_bytes(), 0);
    assert_eq!(store.current_gen(), 3);
    assert_eq!(total_bytes(&disk), record_len);
    assert_eq!(get(&store, "k"), Some(value));
    assert!(same_as_image(&disk, &store));
}

#[test]
fn ten_thousand_overwrites_stay_near_the_threshold() {
    let mut disk = Disk::new();
    let mut store = open(&mut disk);
    let mut last = String::new();
    for i in 0..10_000 {
        last = format!("{:0>1024}", i);
        set(&mut disk, &mut store, "k", &last);
        assert!(total_bytes(&disk) < live_bytes(&store) + COMPACTION_THRESHOLD);
    }
    assert_eq!(get(&store, "k"), Some(last.clone()));
    assert!(total_bytes(&disk) < 2 * COMPACTION_THRESHOLD);
    assert!(same_as_image(&disk, &store));
    let reopened = open(&mut disk);
    assert_eq!(get(&reopened, "k"), Some(last));
}

#[test]
fn contents_do_not_depend_on_compaction() {
    let mut disk = Disk::new();
    let mut store = open(&mut disk);
    let mut plain_disk = Disk::new();
    let mut plain = open(&mut plain_disk);
    let mut model: BTreeMap<String, String> = BTreeMap::new();
    for i in 0..200u32 {
        let key = format!("key{}", i % 17);
        if i % 5 == 4 {
            let had = model.remove(&key).is_some();
            assert_eq!(store.remove(key.clone()).is_ok(), had);
            assert_eq!(plain.remove(key.clone()).is_ok(), had);
        } else {
            let value = format!("value{}", i);
            store.set(key.clone(), value.clone()).unwrap();
            plain.set(key.clone(), value.clone()).unwrap();
            model.insert(key, value);
        }
        if i % 7 == 0 {
            store.compact().unwrap();
        }
    }
    assert!(store.current_gen() > plain.current_gen());
    for i in 0..17 {
        let key = format!("key{}", i);
        assert_eq!(get(&store, &key), model.get(&key).cloned());
        assert_eq!(get(&plain, &key), model.get(&key).cloned());
    }
}

#[test]
fn keys_and_values_of_any_characters() {
    let mut disk = Disk::new();
    let mut store = open(&mut disk);
    let pairs = [
        ("", ""),
        ("\"", "\\"),
        ("line\nbreak", "tab\tand\u{0}nul"),
        ("gr\u{fc}\u{df}e", "\u{1F600} \u{2028}"),
        ("}}", "{\"Rm\":{\"key\":\"x\"}}"),
    ];
    for (key, value) in pairs {
        set(&mut disk, &mut store, key, value);
    }
    let reopened = open(&mut disk);
    for (key, value) in pairs {
        assert_eq!(get(&store, key), Some(value.to_owned()));
        assert_eq!(get(&reopened, key), Some(value.to_owned()));
    }
    persist(&mut disk, store.compact().unwrap());
    for (key, value) in pairs {
        assert_eq!(get(&store, key), Some(value.to_owned()));
    }
}

#[test]
fn apply_takes_a_record_that_reads_as_the_command() {
    let mut disk = Disk::new();
    let mut store = open(&mut disk);
    let written = "{\"Set\":{\"key\":\"\\u006b\",\"value\":\"v\"}}".as_bytes().to_vec();
    let ops = store.apply(kvs::MultipleCmd::set("k".to_owned(), "v".to_owned()), written.clone()).unwrap();
    persist(&mut disk, ops);
    assert_eq!(get(&store, "k"), Some("v".to_owned()));
    assert_eq!(disk.get(&1), Some(&written));
    let args = store.records().get("k").unwrap();
    assert_eq!((args.log, args.pos, args.len), (1, 0, written.len() as u64));
}

#[test]
fn apply_refuses_a_record_that_reads_as_something_else() {
    let mut disk = Disk::new();
    let mut store = open(&mut disk);
    let written = "{\"Set\":{\"key\":\"k\",\"value\":\"v\"}}".as_bytes().to_vec();
    let refused = [
        kvs::MultipleCmd::set("k".to_owned(), "w".to_owned()),
        kvs::MultipleCmd::set("j".to_owned(), "v".to_owned()),
    ];
    for cmd in refused {
        assert!(matches!(store.apply(cmd, written.clone()), Err(KvsError::Serde(_))));
    }
    let unquoted = "{\"Set\":{\"key\":k,\"value\":v}}".as_bytes().to_vec();
    let cmd = kvs::MultipleCmd::set("k".to_owned(), "v".to_owned());
    assert!(matches!(store.apply(cmd, unquoted), Err(KvsError::Serde(_))));
    assert_eq!(get(&store, "k"), None);
    assert_eq!(store.dir().bytes_at(0).len(), 0);
}

#[test]
fn apply_does_not_remove_what_is_not_there() {
    let mut disk = Disk::new();
    let mut store = open(&mut disk);
    let written = "{\"Rm\":{\"key\":\"k\"}}".as_bytes().to_vec();
    let cmd = kvs::MultipleCmd::rm("k".to_owned());
    assert!(matches!(store.apply(cmd, written.clone()), Err(KvsError::KeyNotFound)));
    assert!(matches!(
        store.apply(kvs::MultipleCmd::rm("k".to_owned()), b"junk".to_vec()),
        Err(KvsError::KeyNotFound)
    ));
    set(&mut disk, &mut store, "k", "v");
    assert!(matches!(
        store.apply(kvs::MultipleCmd::rm("k".to_owned()), b"junk".to_vec()),
        Err(KvsError::Serde(_))
    ));
    store.apply(kvs::MultipleCmd::rm("k".to_owned()), written).unwrap();
    assert_eq!(get(&store, "k"), None);
    assert_eq!(store.stale_bytes(), 31 + 18);
}
