use durable_log::{recover_state, Operation, State};

fn put(key: &str, value: &[u8]) -> Operation {
    Operation::Put { key: key.to_string(), value: value.to_vec() }
}

fn delete(key: &str) -> Operation {
    Operation::Delete { key: key.to_string() }
}

fn sorted(state: State) -> Vec<(String, Vec<u8>)> {
    let mut entries = state.into_entries();
    entries.sort();
    entries
}

#[test]
fn put_then_overwrite_then_delete_leaves_nothing() {
    let state = recover_state(&vec![put("a", b"1"), put("a", b"2"), delete("a")]);
    assert_eq!(state.len(), 0);
    assert_eq!(state.get(&"a".to_string()), None);
}

#[test]
fn two_puts_give_two_keys() {
    let state = recover_state(&vec![put("a", b"1"), put("b", b"2")]);
    assert_eq!(
        sorted(state),
        vec![("a".to_string(), b"1".to_vec()), ("b".to_string(), b"2".to_vec())]
    );
}

#[test]
fn appended_operations_recover_to_a_and_c() {
    let ops = vec![put("a", b"1"), put("b", b"2"), put("c", b"3"), delete("b")];
    let state = recover_state(&ops);
    assert_eq!(state.get(&"a".to_string()), Some(&b"1".to_vec()));
    assert_eq!(state.get(&"b".to_string()), None);
    assert_eq!(state.get(&"c".to_string()), Some(&b"3".to_vec()));
    assert_eq!(
        sorted(state),
        vec![("a".to_string(), b"1".to_vec()), ("c".to_string(), b"3".to_vec())]
    );
}

#[test]
fn no_operations_recover_to_empty_state() {
    assert_eq!(recover_state(&vec![]).len(), 0);
}

#[test]
fn delete_of_absent_key_changes_nothing() {
    let state = recover_state(&vec![put("a", b"1"), delete("z")]);
    assert_eq!(sorted(state), vec![("a".to_string(), b"1".to_vec())]);
}

#[test]
fn overwrite_keeps_latest_value() {
    let mut state = State::new();
    state.put("k".to_string(), b"old".to_vec());
    state.put("k".to_string(), b"new".to_vec());
    assert_eq!(state.len(), 1);
    assert_eq!(state.get(&"k".to_string()), Some(&b"new".to_vec()));
    state.delete(&"k".to_string());
    assert_eq!(state.len(), 0);
}

/// A small payload format local to this test: tag byte, key length, key,
/// then the value for a put.
fn to_payload(op: &Operation) -> Vec<u8> {
    match op {
        Operation::Put { key, value } => {
            let mut p = vec![0, key.len() as u8];
            p.extend_from_slice(key.as_bytes());
            p.extend_from_slice(value);
            p
        }
        Operation::Delete { key } => {
            let mut p = vec![1, key.len() as u8];
            p.extend_from_slice(key.as_bytes());
            p
        }
    }
}

fn from_payload(p: &[u8]) -> Operation {
    let n = p[1] as usize;
    let key = String::from_utf8(p[2..2 + n].to_vec()).unwrap();
    if p[0] == 0 {
        Operation::Put { key, value: p[2 + n..].to_vec() }
    } else {
        Operation::Delete { key }
    }
}

#[test]
fn logged_operations_replay_to_a_and_c() {
    let ops = vec![put("a", b"1"), put("b", b"2"), put("c", b"3"), delete("b")];
    let mut log = Vec::new();
    for op in &ops {
        log.extend_from_slice(&durable_log::encode_record(&to_payload(op)));
    }
    let replayed: Vec<Operation> =
        durable_log::scan_payloads(&log).iter().map(|p| from_payload(p)).collect();
    assert_eq!(replayed.len(), 4);
    assert_eq!(
        sorted(recover_state(&replayed)),
        vec![("a".to_string(), b"1".to_vec()), ("c".to_string(), b"3".to_vec())]
    );
}
