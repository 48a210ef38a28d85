use kvs::codec::{encode, Command};
use kvs::errors::{ErrKeyNotFound, KvsError};
use kvs::protocol::{
    frame_request, get_reply, handle_request, key_not_found, reply_outcome, rm_reply, set_reply,
    Framing,
};
use kvs::store::KvStore;

fn fresh() -> KvStore {
    match KvStore::open(Vec::new()) {
        Ok(s) => s,
        Err(e) => panic!("{:?}", e),
    }
}

#[test]
fn server_replies_per_command() {
    let mut store = fresh();
    let set = encode(&Command::Put { key: "key1".to_string(), value: "value1".to_string() });
    assert_eq!(handle_request(&mut store, &set), Ok(Vec::new()));
    let get = encode(&Command::Get { key: "key1".to_string() });
    assert_eq!(handle_request(&mut store, &get), Ok(b"value1".to_vec()));
    let get_missing = encode(&Command::Get { key: "key2".to_string() });
    assert_eq!(handle_request(&mut store, &get_missing), Ok(b"Key not found".to_vec()));
    let rm_missing = encode(&Command::Rm { key: "key2".to_string() });
    assert_eq!(handle_request(&mut store, &rm_missing), Ok(b"Key not found".to_vec()));
    let rm = encode(&Command::Rm { key: "key1".to_string() });
    assert_eq!(handle_request(&mut store, &rm), Ok(Vec::new()));
    assert_eq!(handle_request(&mut store, &get), Ok(b"Key not found".to_vec()));
}

#[test]
fn server_accepts_request_without_line_feed() {
    let mut store = fresh();
    assert_eq!(handle_request(&mut store, b"[\"Set\",\"a\",\"b\"]"), Ok(Vec::new()));
    assert_eq!(handle_request(&mut store, b"[\"Get\",\"a\"]"), Ok(b"b".to_vec()));
}

#[test]
fn server_rejects_garbage() {
    let mut store = fresh();
    assert_eq!(handle_request(&mut store, b"hello\n"), Err(KvsError::Decode));
}

#[test]
fn client_reads_replies() {
    let get = Command::Get { key: "k".to_string() };
    assert_eq!(reply_outcome(&get, b"v".to_vec()), Ok(Some("v".to_string())));
    assert_eq!(reply_outcome(&get, key_not_found()), Ok(Some("Key not found".to_string())));
    assert_eq!(reply_outcome(&get, vec![0xff]), Err(KvsError::Decode));
    let set = Command::Put { key: "k".to_string(), value: "v".to_string() };
    assert_eq!(reply_outcome(&set, Vec::new()), Ok(None));
    let rm = Command::Rm { key: "key2".to_string() };
    assert_eq!(reply_outcome(&rm, Vec::new()), Ok(None));
    assert_eq!(
        reply_outcome(&rm, key_not_found()),
        Err(KvsError::KeyNotFound(ErrKeyNotFound { key: "key2".to_string() }))
    );
}

#[test]
fn replies_follow_engine_outcomes() {
    assert_eq!(get_reply(Ok(Some("v".to_string()))), Ok(b"v".to_vec()));
    assert_eq!(get_reply(Ok(None)), Ok(b"Key not found".to_vec()));
    assert_eq!(get_reply(Err(KvsError::Io("disk".to_string()))), Err(KvsError::Io("disk".to_string())));
    assert_eq!(set_reply(Ok(())), Ok(Vec::new()));
    assert_eq!(set_reply(Err(KvsError::Io("disk".to_string()))), Err(KvsError::Io("disk".to_string())));
    assert_eq!(rm_reply(Ok(())), Ok(Vec::new()));
    let missing = Err(KvsError::KeyNotFound(ErrKeyNotFound { key: "k".to_string() }));
    assert_eq!(rm_reply(missing), Ok(b"Key not found".to_vec()));
    assert_eq!(rm_reply(Err(KvsError::Decode)), Err(KvsError::Decode));
}

#[test]
fn requests_are_framed_by_line_feed_or_close() {
    assert_eq!(frame_request(b"[\"Get\"", false, 100), Framing::Incomplete);
    assert_eq!(frame_request(b"[\"Get\",\"k\"]\n", false, 100), Framing::Complete);
    assert_eq!(frame_request(b"[\"Get\"", true, 100), Framing::Complete);
    assert_eq!(frame_request(b"", true, 100), Framing::Complete);
    assert_eq!(frame_request(&[b'x'; 101], false, 100), Framing::TooLarge);
    assert_eq!(frame_request(&[b'x'; 100], false, 100), Framing::Incomplete);
}
