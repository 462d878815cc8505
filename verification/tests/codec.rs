use radb_core::command::{apply, apply_bytes, decode_command, encode_command, Command};
use radb_core::error::Error;
use radb_core::mvcc::MvccStore;

fn b(s: &str) -> Vec<u8> {
    s.as_bytes().to_vec()
}

#[test]
fn encode_decode_put() {
    let cmd = Command::Put { key: b("movie/1"), value: b("Alien") };
    let bytes = encode_command(&cmd);
    match decode_command(&bytes) {
        Ok(Command::Put { key, value }) => {
            assert_eq!(key, b("movie/1"));
            assert_eq!(value, b("Alien"));
        },
        other => panic!("decoded {:?}", other.is_ok()),
    }
}

#[test]
fn encode_decode_delete() {
    let cmd = Command::Delete { key: b("movie/1") };
    let bytes = encode_command(&cmd);
    match decode_command(&bytes) {
        Ok(Command::Delete { key }) => assert_eq!(key, b("movie/1")),
        other => panic!("decoded {:?}", other.is_ok()),
    }
}

#[test]
fn encode_layout_is_exact() {
    let cmd = Command::Put { key: b("ab"), value: b("c") };
    let bytes = encode_command(&cmd);
    assert_eq!(bytes, vec![1u8, 2, 0, 0, 0, b'a', b'b', 1, 0, 0, 0, b'c']);
}

#[test]
fn decode_rejects_garbage() {
    assert_eq!(decode_command(&vec![]).err(), Some(Error::Internal));
    assert_eq!(decode_command(&vec![9u8, 0, 0, 0, 0]).err(), Some(Error::Internal));
    // A delete whose length field overruns the buffer is corrupt.
    assert_eq!(decode_command(&vec![0u8, 5, 0, 0, 0, b'a']).err(), Some(Error::Internal));
    // A put cut short before its value is corrupt.
    assert_eq!(decode_command(&vec![1u8, 1, 0, 0, 0, b'a']).err(), Some(Error::Internal));
}

#[test]
fn apply_put_visible() {
    let mut store = MvccStore::new();
    let version = apply(&mut store, &Command::Put { key: b("k"), value: b("v") });
    assert_eq!(version, 1);
    let r = store.begin_read_only();
    assert_eq!(store.get(&r, &b("k")), Some(b("v")));
}

#[test]
fn apply_bytes_round_trip() {
    let mut store = MvccStore::new();
    let bytes = encode_command(&Command::Put { key: b("k"), value: b("v") });
    assert_eq!(apply_bytes(&mut store, &bytes), Ok(1));
    let bad = apply_bytes(&mut store, &vec![7u8]);
    assert_eq!(bad, Err(Error::Internal));
    let r = store.begin_read_only();
    assert_eq!(store.get(&r, &b("k")), Some(b("v")));
}

#[test]
fn apply_deterministic_across_nodes() {
    // Two stores that apply the same committed command prefix reach
    // identical observable state.
    let cmds = vec![
        Command::Put { key: b("a"), value: b("1") },
        Command::Put { key: b("b"), value: b("2") },
        Command::Delete { key: b("a") },
        Command::Put { key: b("b"), value: b("3") },
    ];
    let mut s1 = MvccStore::new();
    let mut s2 = MvccStore::new();
    for c in &cmds {
        let bytes = encode_command(c);
        apply_bytes(&mut s1, &bytes).unwrap();
        apply_bytes(&mut s2, &bytes).unwrap();
    }
    let r1 = s1.begin_read_only();
    let r2 = s2.begin_read_only();
    for key in [b("a"), b("b")] {
        assert_eq!(s1.get(&r1, &key), s2.get(&r2, &key));
    }
    assert_eq!(s1.next_version, s2.next_version);
    assert_eq!(s1.get(&r1, &b("a")), None);
    assert_eq!(s1.get(&r1, &b("b")), Some(b("3")));
}
