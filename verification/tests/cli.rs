use kvs::cli::{
    current_engine, run, select_engine, Command, Engine, EngineError, Reply, DEFAULT_ENGINE,
};
use kvs::{KvStore, KvsError, LogDir};

fn store() -> KvStore {
    KvStore::open(LogDir::new()).unwrap().0
}

fn put(store: &mut KvStore, key: &str, value: &str) -> Reply {
    run(store, Command::Put { key: key.to_owned(), value: value.to_owned() })
}

fn get(store: &mut KvStore, key: &str) -> Reply {
    run(store, Command::Get { key: key.to_owned() })
}

fn rm(store: &mut KvStore, key: &str) -> Reply {
    run(store, Command::Rm { key: key.to_owned() })
}

#[test]
fn engine_is_named_kvs_or_sled() {
    assert_eq!(Engine::from_str("kvs"), Ok(Engine::kvs));
    assert_eq!(Engine::from_str("sled"), Ok(Engine::sled));
    assert_eq!(Engine::from_str("Kvs"), Err(EngineError::UnexpectedEngineType));
    assert_eq!(Engine::from_str("kvs\n"), Err(EngineError::UnexpectedEngineType));
    assert_eq!(Engine::from_str(""), Err(EngineError::UnexpectedEngineType));
    assert_eq!(Engine::kvs.name(), "kvs");
    assert_eq!(Engine::sled.name(), "sled");
    assert_eq!(Engine::from_str(Engine::sled.name()), Ok(Engine::sled));
}

#[test]
fn engine_of_a_directory_is_read_from_its_engine_file() {
    assert_eq!(current_engine(None), Ok(None));
    assert_eq!(current_engine(Some("kvs")), Ok(Some(Engine::kvs)));
    assert_eq!(current_engine(Some("sled")), Ok(Some(Engine::sled)));
    assert_eq!(current_engine(Some("rocks")), Err(EngineError::UnexpectedEngineType));
}

#[test]
fn server_runs_the_engine_that_is_asked_for_or_was_run() {
    assert_eq!(DEFAULT_ENGINE, Engine::kvs);
    assert_eq!(select_engine(None, None), Ok(Engine::kvs));
    assert_eq!(select_engine(Some(Engine::sled), None), Ok(Engine::sled));
    assert_eq!(select_engine(None, Some(Engine::sled)), Ok(Engine::sled));
    assert_eq!(select_engine(Some(Engine::kvs), Some(Engine::kvs)), Ok(Engine::kvs));
    assert_eq!(select_engine(Some(Engine::kvs), Some(Engine::sled)), Err(EngineError::WrongEngine));
    assert_eq!(select_engine(Some(Engine::sled), Some(Engine::kvs)), Err(EngineError::WrongEngine));
}

#[test]
fn set_prints_nothing_and_succeeds() {
    let mut store = store();
    let reply = put(&mut store, "k", "v");
    assert_eq!((reply.stdout, reply.stderr, reply.code), (None, None, 0));
    assert_eq!(reply.ops.len(), 1);
}

#[test]
fn get_prints_the_value() {
    let mut store = store();
    put(&mut store, "k", "v");
    let reply = get(&mut store, "k");
    assert_eq!((reply.stdout, reply.stderr, reply.code), (Some("v".to_owned()), None, 0));
    assert!(reply.ops.is_empty());
}

#[test]
fn get_of_a_missing_key_prints_key_not_found_and_succeeds() {
    let mut store = store();
    let reply = get(&mut store, "k");
    assert_eq!((reply.stdout, reply.stderr, reply.code), (Some("Key not found".to_owned()), None, 0));
}

#[test]
fn rm_prints_nothing_and_succeeds() {
    let mut store = store();
    put(&mut store, "k", "v");
    let reply = rm(&mut store, "k");
    assert_eq!((reply.stdout, reply.stderr, reply.code), (None, None, 0));
    assert_eq!(reply.ops.len(), 1);
    assert_eq!(get(&mut store, "k").stdout, Some("Key not found".to_owned()));
}

#[test]
fn rm_of_a_missing_key_prints_key_not_found_and_fails() {
    let mut store = store();
    let reply = rm(&mut store, "k");
    assert_eq!((reply.stdout, reply.stderr, reply.code), (Some("Key not found".to_owned()), None, 1));
    assert!(reply.ops.is_empty());
}

#[test]
fn errors_have_a_message() {
    assert_eq!(KvsError::KeyNotFound.message(), "Key not found");
    assert_eq!(KvsError::UnexpectedCommandType.message(), "Unexpected command type");
    let io = std::io::Error::new(std::io::ErrorKind::NotFound, "no such log");
    assert_eq!(KvsError::from(io).message(), "no such log");
    let json = match KvStore::open({
        let mut dir = LogDir::new();
        dir.insert(1, b"{\"Rm\":{\"key\":\"\\q\"}}".to_vec());
        dir
    }) {
        Err(e) => e,
        Ok(_) => panic!("a corrupt log was opened"),
    };
    assert!(matches!(json, KvsError::Serde(_)));
    assert!(json.message().contains("escape"));
}

#[test]
fn errors_are_made_of_the_errors_beneath() {
    let io = std::io::Error::new(std::io::ErrorKind::Other, "x");
    assert!(matches!(KvsError::from(io), KvsError::Io(_)));
    let json = serde_json::from_slice::<String>(b"nope").unwrap_err();
    assert!(matches!(KvsError::from(json), KvsError::Serde(_)));
}
