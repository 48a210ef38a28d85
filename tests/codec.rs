use kvs::codec::{decode, encode, utf8_to_string, Command, DecodeError};
use kvs::index::hash_key;

fn body(cmd: &Command) -> Vec<u8> {
    let mut b = encode(cmd);
    assert_eq!(b.pop(), Some(b'\n'));
    b
}

#[test]
fn encodes_set_get_rm() {
    let set = Command::Put { key: "key1".to_string(), value: "value1".to_string() };
    assert_eq!(encode(&set), b"[\"Set\",\"key1\",\"value1\"]\n".to_vec());
    let get = Command::Get { key: "key1".to_string() };
    assert_eq!(encode(&get), b"[\"Get\",\"key1\"]\n".to_vec());
    let rm = Command::Rm { key: "key1".to_string() };
    assert_eq!(encode(&rm), b"[\"Rm\",\"key1\"]\n".to_vec());
}

#[test]
fn escapes_quotes_backslashes_and_line_breaks() {
    let cmd = Command::Get { key: "a\"b\\c\nd\re".to_string() };
    assert_eq!(encode(&cmd), b"[\"Get\",\"a\\\"b\\\\c\\nd\\re\"]\n".to_vec());
}

#[test]
fn decode_inverts_encode() {
    let cmds = vec![
        Command::Put { key: "k".to_string(), value: String::new() },
        Command::Put { key: "ключ".to_string(), value: "значение\n\"x\"".to_string() },
        Command::Get { key: "\\".to_string() },
        Command::Rm { key: "\r\n".to_string() },
        Command::Get { key: String::new() },
    ];
    for cmd in cmds {
        assert_eq!(decode(&body(&cmd)), Ok(cmd.clone()));
    }
}

#[test]
fn encode_inverts_decode() {
    let inputs: Vec<&[u8]> = vec![
        b"[\"Set\",\"a\",\"b\"]",
        b"[\"Get\",\"x\\\"y\"]",
        b"[\"Rm\",\"\\n\"]",
    ];
    for input in inputs {
        let cmd = decode(input).unwrap();
        assert_eq!(body(&cmd), input.to_vec());
    }
}

#[test]
fn rejects_malformed_bodies() {
    let inputs: Vec<&[u8]> = vec![
        b"",
        b"[\"Set\",\"k\"]",
        b"[\"Get\",\"k\"] ",
        b"[\"Get\",\"k\nk\"]",
        b"[\"Get\",\"k\\t\"]",
        b"[\"Get\",\"\xff\"]",
        b"[\"Put\",\"k\",\"v\"]",
        b"[\"Rm\",\"k\"]\n",
        b"{\"Get\":{\"key\":\"k\"}}",
    ];
    for input in inputs {
        assert_eq!(decode(input), Err(DecodeError));
    }
}

#[test]
fn utf8_conversion() {
    assert_eq!(utf8_to_string("héllo".as_bytes().to_vec()), Some("héllo".to_string()));
    assert_eq!(utf8_to_string(vec![0xff, 0xfe]), None);
}

#[test]
fn key_hash_is_fnv1a() {
    assert_eq!(hash_key(&String::new()), 0xcbf29ce484222325);
    assert_eq!(hash_key(&"a".to_string()), 0xaf63dc4c8601ec8c);
}
