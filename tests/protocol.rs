use kvs::sled_engine::{lookup_result, removal_result, sled_path};
use kvs::{check_engine, execute, get_result, Command, Engine, KeyNotFound, KvStore, KvsError, LogLevel, Logger, Response, SledKvStore};

fn s(x: &str) -> String {
    x.to_owned()
}

fn response_json(r: &Response) -> serde_json::Value {
    let mut m = serde_json::Map::new();
    m.insert(
        s("value"),
        match &r.value {
            Some(v) => serde_json::Value::String(v.clone()),
            None => serde_json::Value::Null,
        },
    );
    m.insert(
        s("error"),
        match &r.error {
            Some(e) => serde_json::Value::String(e.clone()),
            None => serde_json::Value::Null,
        },
    );
    serde_json::Value::Object(m)
}

fn command_from_json(text: &str) -> Command {
    let v: serde_json::Value = serde_json::from_str(text).unwrap();
    if let Some(body) = v.get("Get") {
        Command::Get { key: body["key"].as_str().unwrap().to_owned() }
    } else if let Some(body) = v.get("Set") {
        Command::Put {
            key: body["key"].as_str().unwrap().to_owned(),
            value: body["value"].as_str().unwrap().to_owned(),
        }
    } else {
        let body = v.get("Remove").unwrap();
        Command::Remove { key: body["key"].as_str().unwrap().to_owned() }
    }
}

#[test]
fn get_on_empty_server_gives_empty_response() {
    let mut engine = Engine::Kvs(KvStore::new());
    let command = command_from_json("{\"Get\":{\"key\":\"a\"}}");
    let response = Response::new(get_result(command, &mut engine));
    assert_eq!(response.value, None);
    assert_eq!(response.error, None);
    assert!(!response.is_error());
    let expected: serde_json::Value = serde_json::from_str("{\"value\":null,\"error\":null}").unwrap();
    assert_eq!(response_json(&response), expected);
}

#[test]
fn protocol_set_get_remove() {
    let mut engine = Engine::Kvs(KvStore::new());
    let r = get_result(command_from_json("{\"Set\":{\"key\":\"a\",\"value\":\"1\"}}"), &mut engine);
    assert_eq!(r, Ok(None));
    let r = get_result(command_from_json("{\"Get\":{\"key\":\"a\"}}"), &mut engine);
    assert_eq!(r, Ok(Some(s("1"))));
    let r = get_result(command_from_json("{\"Remove\":{\"key\":\"a\"}}"), &mut engine);
    assert_eq!(r, Ok(None));
    let response = Response::new(get_result(command_from_json("{\"Remove\":{\"key\":\"a\"}}"), &mut engine));
    assert!(response.is_error());
    assert_eq!(response.value, None);
    assert_eq!(response.error, Some(s("Key not found")));
}

#[test]
fn execute_on_store() {
    let mut store = KvStore::new();
    assert_eq!(execute(Command::Put { key: s("k"), value: s("v") }, &mut store), Ok(None));
    assert_eq!(execute(Command::Get { key: s("k") }, &mut store), Ok(Some(s("v"))));
    assert_eq!(execute(Command::Remove { key: s("nope") }, &mut store), Err(KvsError::KeyNotFound));
}

#[test]
fn response_with_value_and_with_error() {
    let ok = Response::new(Ok(Some(s("v"))));
    assert_eq!(ok.value, Some(s("v")));
    assert_eq!(ok.error, None);
    assert!(!ok.is_error());
    let err = Response::new(Err(KvsError::Corrupt));
    assert_eq!(err.value, None);
    assert_eq!(err.error, Some(s("Corrupt log")));
    assert!(err.is_error());
    let m = Response::new(Err(KvsError::EngineMismatch));
    assert_eq!(m.error, Some(s("Engine does not match")));
    let io = Response::new(Err(KvsError::Io));
    assert_eq!(io.error, Some(s("I/O error")));
}

#[test]
fn key_not_found_message() {
    assert_eq!(KeyNotFound.message(), s("Key not found"));
    assert_eq!(KvsError::from(KeyNotFound), KvsError::KeyNotFound);
}

#[test]
fn engine_marker_gate() {
    assert_eq!(check_engine("sled", "kvs"), Err(KvsError::EngineMismatch));
    assert_eq!(check_engine("kvs", "sled"), Err(KvsError::EngineMismatch));
    assert_eq!(check_engine("kvs", ""), Ok(s("kvs")));
    assert_eq!(check_engine("sled", ""), Ok(s("sled")));
    assert_eq!(check_engine("kvs", "kvs"), Ok(s("kvs")));
}

#[test]
fn logger_prints_info_and_above() {
    let logger = Logger;
    assert!(logger.enabled(LogLevel::Error));
    assert!(logger.enabled(LogLevel::Warn));
    assert!(logger.enabled(LogLevel::Info));
    assert!(!logger.enabled(LogLevel::Debug));
    assert!(!logger.enabled(LogLevel::Trace));
}

#[test]
fn sled_lookup_and_removal_results() {
    assert_eq!(lookup_result(Ok(Some(b"v\xc3\xa9".to_vec()))), Ok(Some(s("vé"))));
    assert_eq!(lookup_result(Ok(Some(vec![0xff]))), Err(KvsError::Corrupt));
    assert_eq!(lookup_result(Ok(None)), Ok(None));
    assert_eq!(lookup_result(Err(sled::Error::Unsupported(s("x")))), Err(KvsError::Io));
    assert_eq!(removal_result(Some(vec![1])), Ok(()));
    assert_eq!(removal_result(None), Err(KvsError::KeyNotFound));
}

#[test]
fn sled_engine_round_trip() {
    let nanos = std::time::SystemTime::now().duration_since(std::time::UNIX_EPOCH).unwrap().as_nanos();
    let dir = format!("/tmp/kvs-sled-test-{}", nanos);
    let mut engine = Engine::Sled(SledKvStore::open(&dir).unwrap());
    assert_eq!(get_result(Command::Get { key: s("a") }, &mut engine), Ok(None));
    assert_eq!(get_result(Command::Put { key: s("a"), value: s("1") }, &mut engine), Ok(None));
    assert_eq!(get_result(Command::Get { key: s("a") }, &mut engine), Ok(Some(s("1"))));
    assert_eq!(get_result(Command::Remove { key: s("a") }, &mut engine), Ok(None));
    assert_eq!(get_result(Command::Remove { key: s("a") }, &mut engine), Err(KvsError::KeyNotFound));
}

#[test]
fn sled_database_path() {
    assert_eq!(sled_path("/data/dir"), s("/data/dir/current_sled_log"));
    assert_eq!(sled_path(""), s("/current_sled_log"));
}

#[test]
fn sled_engine_overwrite_and_reopen() {
    let nanos = std::time::SystemTime::now().duration_since(std::time::UNIX_EPOCH).unwrap().as_nanos();
    let dir = format!("/tmp/kvs-sled-reopen-{}", nanos);
    {
        let mut store = SledKvStore::open(&dir).unwrap();
        store.set(s("k"), s("v1")).unwrap();
        store.set(s("k"), s("v2")).unwrap();
        assert_eq!(store.get(s("k")).unwrap(), Some(s("v2")));
    }
    let mut store = SledKvStore::open(&dir).unwrap();
    assert_eq!(store.get(s("k")).unwrap(), Some(s("v2")));
    assert_eq!(store.remove(s("missing")), Err(KvsError::KeyNotFound));
}
