use kvs::codec::{encode, Command};
use kvs::errors::{ErrKeyNotFound, KvsError};
use kvs::store::{KvStore, LogWrite, COMPACTION_THRESHOLD};

fn apply(file: &mut Vec<u8>, writes: Vec<LogWrite>) {
    for w in writes {
        match w {
            LogWrite::Append(bytes) => file.extend_from_slice(&bytes),
            LogWrite::Truncate(n) => file.truncate(n),
            LogWrite::Replace(bytes) => *file = bytes,
        }
    }
}

fn fresh() -> KvStore {
    match KvStore::open(Vec::new()) {
        Ok(s) => s,
        Err(e) => panic!("{:?}", e),
    }
}

fn reopen(file: &[u8]) -> KvStore {
    match KvStore::open(file.to_vec()) {
        Ok(s) => s,
        Err(e) => panic!("{:?}", e),
    }
}

fn put_line(key: &str, value: &str) -> Vec<u8> {
    encode(&Command::Put { key: key.to_string(), value: value.to_string() })
}

#[test]
fn fresh_store_set_then_get() {
    let mut store = fresh();
    assert_eq!(store.set("key1".to_string(), "value1".to_string()), Ok(()));
    assert_eq!(store.get("key1".to_string()), Ok(Some("value1".to_string())));
}

#[test]
fn overwrite_keeps_last_value() {
    let mut store = fresh();
    store.set("key1".to_string(), "value1".to_string()).unwrap();
    store.set("key1".to_string(), "value2".to_string()).unwrap();
    assert_eq!(store.get("key1".to_string()), Ok(Some("value2".to_string())));
}

#[test]
fn missing_key_reads_none() {
    let mut store = fresh();
    assert_eq!(store.get("key2".to_string()), Ok(None));
}

#[test]
fn remove_missing_key_fails_without_writing() {
    let mut store = fresh();
    let r = store.remove("key2".to_string());
    assert_eq!(
        r,
        Err(KvsError::KeyNotFound(ErrKeyNotFound { key: "key2".to_string() }))
    );
    assert!(store.take_writes().is_empty());
}

#[test]
fn remove_twice_fails_second_time() {
    let mut store = fresh();
    store.set("k".to_string(), "v".to_string()).unwrap();
    assert_eq!(store.remove("k".to_string()), Ok(()));
    assert!(matches!(store.remove("k".to_string()), Err(KvsError::KeyNotFound(_))));
    assert_eq!(store.get("k".to_string()), Ok(None));
}

#[test]
fn set_twice_same_as_once() {
    let mut once = fresh();
    once.set("k".to_string(), "v".to_string()).unwrap();
    let mut twice = fresh();
    twice.set("k".to_string(), "v".to_string()).unwrap();
    twice.set("k".to_string(), "v".to_string()).unwrap();
    assert_eq!(once.get("k".to_string()), twice.get("k".to_string()));
    assert_eq!(twice.get("k".to_string()), Ok(Some("v".to_string())));
}

#[test]
fn writes_append_encoded_records() {
    let mut store = fresh();
    store.set("a".to_string(), "1".to_string()).unwrap();
    store.remove("a".to_string()).unwrap();
    let writes = store.take_writes();
    let mut expected = put_line("a", "1");
    expected.extend_from_slice(b"[\"Rm\",\"a\"]\n");
    let mut file = Vec::new();
    apply(&mut file, writes);
    assert_eq!(file, expected);
    assert!(store.take_writes().is_empty());
}

#[test]
fn persistence_across_reopen() {
    let mut file = Vec::new();
    let mut store = fresh();
    store.set("key1".to_string(), "value1".to_string()).unwrap();
    apply(&mut file, store.take_writes());
    let mut store = reopen(&file);
    store.set("key2".to_string(), "value3".to_string()).unwrap();
    store.remove("key1".to_string()).unwrap();
    apply(&mut file, store.take_writes());
    drop(store);
    let mut store = reopen(&file);
    assert_eq!(store.get("key2".to_string()), Ok(Some("value3".to_string())));
    assert_eq!(store.get("key1".to_string()), Ok(None));
}

#[test]
fn reopen_after_every_prefix_matches_memory() {
    let ops: Vec<(&str, Option<&str>)> = vec![
        ("a", Some("1")),
        ("b", Some("2")),
        ("a", None),
        ("c", Some("3")),
        ("b", Some("4")),
        ("c", None),
    ];
    let mut file = Vec::new();
    let mut store = fresh();
    for (k, v) in ops {
        match v {
            Some(v) => store.set(k.to_string(), v.to_string()).unwrap(),
            None => store.remove(k.to_string()).unwrap(),
        }
        apply(&mut file, store.take_writes());
        let mut again = reopen(&file);
        for key in ["a", "b", "c", "d"] {
            assert_eq!(again.get(key.to_string()), store.get(key.to_string()));
        }
    }
}

#[test]
fn compaction_keeps_one_record_per_key() {
    let mut file = Vec::new();
    let mut store = fresh();
    let mut last = String::new();
    for i in 0..20000 {
        last = format!("v_{}", i);
        store.set("k".to_string(), last.clone()).unwrap();
        if i % 1000 == 999 {
            apply(&mut file, store.take_writes());
        }
    }
    apply(&mut file, store.take_writes());
    assert_eq!(COMPACTION_THRESHOLD, 9999);
    assert_eq!(file, put_line("k", &last));
    assert_eq!(store.get("k".to_string()), Ok(Some("v_19999".to_string())));
    let mut again = reopen(&file);
    assert_eq!(again.get("k".to_string()), Ok(Some("v_19999".to_string())));
}

#[test]
fn explicit_compaction_drops_stale_records() {
    let mut file = Vec::new();
    let mut store = fresh();
    store.set("a".to_string(), "1".to_string()).unwrap();
    store.set("b".to_string(), "2".to_string()).unwrap();
    store.set("a".to_string(), "3".to_string()).unwrap();
    store.remove("b".to_string()).unwrap();
    store.set("c".to_string(), "".to_string()).unwrap();
    store.compact();
    apply(&mut file, store.take_writes());
    let mut expected = put_line("a", "3");
    expected.extend_from_slice(&put_line("c", ""));
    assert_eq!(file, expected);
    assert_eq!(store.get("a".to_string()), Ok(Some("3".to_string())));
    assert_eq!(store.get("b".to_string()), Ok(None));
    assert_eq!(store.get("c".to_string()), Ok(Some(String::new())));
}

#[test]
fn truncated_tail_is_dropped_and_cut() {
    let mut file = put_line("a", "1");
    file.extend_from_slice(b"[\"Set\",\"b\",\"par");
    let mut store = reopen(&file);
    assert_eq!(store.get("a".to_string()), Ok(Some("1".to_string())));
    assert_eq!(store.get("b".to_string()), Ok(None));
    store.set("c".to_string(), "2".to_string()).unwrap();
    let writes = store.take_writes();
    assert_eq!(writes[0], LogWrite::Truncate(put_line("a", "1").len()));
    apply(&mut file, writes);
    let mut expected = put_line("a", "1");
    expected.extend_from_slice(&put_line("c", "2"));
    assert_eq!(file, expected);
}

#[test]
fn corrupt_log_fails_to_open() {
    let mut file = put_line("a", "1");
    file.extend_from_slice(b"not a record\n");
    file.extend_from_slice(&put_line("b", "2"));
    assert!(matches!(KvStore::open(file), Err(KvsError::Decode)));
}

#[test]
fn large_and_multiline_values_round_trip() {
    let big = "x".repeat(100_000);
    let odd = "line1\nline2\r\n\"quoted\" \\ back".to_string();
    let mut file = Vec::new();
    let mut store = fresh();
    store.set("big".to_string(), big.clone()).unwrap();
    store.set("odd\nkey".to_string(), odd.clone()).unwrap();
    store.set("empty".to_string(), String::new()).unwrap();
    apply(&mut file, store.take_writes());
    assert_eq!(file.iter().filter(|b| **b == b'\n').count(), 3);
    let mut again = reopen(&file);
    assert_eq!(again.get("big".to_string()), Ok(Some(big)));
    assert_eq!(again.get("odd\nkey".to_string()), Ok(Some(odd)));
    assert_eq!(again.get("empty".to_string()), Ok(Some(String::new())));
}

#[test]
fn key_not_found_message() {
    let e = ErrKeyNotFound { key: "key1".to_string() };
    assert_eq!(e.message(), "key not found: key1");
}

#[test]
fn many_keys_survive_removal_and_reopen() {
    let mut file = Vec::new();
    let mut store = fresh();
    for i in 0..30000 {
        store.set(format!("key{}", i), format!("value{}", i)).unwrap();
    }
    for i in (0..30000).step_by(3) {
        store.remove(format!("key{}", i)).unwrap();
    }
    apply(&mut file, store.take_writes());
    let mut again = reopen(&file);
    for i in 0..30000 {
        let expected = if i % 3 == 0 { None } else { Some(format!("value{}", i)) };
        assert_eq!(again.get(format!("key{}", i)), Ok(expected.clone()));
        assert_eq!(store.get(format!("key{}", i)), Ok(expected));
    }
}

#[test]
fn set_appends_one_record_until_threshold() {
    let mut file = Vec::new();
    let mut store = fresh();
    let mut expected = Vec::new();
    for i in 0..COMPACTION_THRESHOLD {
        let v = format!("{}", i);
        store.set("k".to_string(), v.clone()).unwrap();
        expected.extend_from_slice(&put_line("k", &v));
    }
    apply(&mut file, store.take_writes());
    assert_eq!(file, expected);
    store.set("k".to_string(), "last".to_string()).unwrap();
    apply(&mut file, store.take_writes());
    assert_eq!(file, put_line("k", "last"));
}

#[test]
fn remove_appends_rm_record() {
    let mut file = Vec::new();
    let mut store = fresh();
    store.set("a".to_string(), "1".to_string()).unwrap();
    store.remove("a".to_string()).unwrap();
    apply(&mut file, store.take_writes());
    let mut expected = put_line("a", "1");
    expected.extend_from_slice(&encode(&Command::Rm { key: "a".to_string() }));
    assert_eq!(file, expected);
}
