use commit_log::store::LogStore;

fn pairs(entries: &[(&str, usize)]) -> Vec<(String, usize)> {
    entries.iter().map(|(k, v)| (k.to_string(), *v)).collect()
}

fn keys(names: &[&str]) -> Vec<String> {
    names.iter().map(|k| k.to_string()).collect()
}

#[test]
fn send_assigns_offsets_in_order() {
    let mut store = LogStore::new();
    assert_eq!(store.send("a".to_string(), 10), 0);
    assert_eq!(store.send("a".to_string(), 20), 1);
    assert_eq!(store.send("a".to_string(), 30), 2);
}

#[test]
fn sends_to_distinct_keys_are_isolated() {
    let mut store = LogStore::new();
    assert_eq!(store.send("a".to_string(), 1), 0);
    assert_eq!(store.send("b".to_string(), 2), 0);
    assert_eq!(store.send("a".to_string(), 3), 1);
    assert_eq!(store.send("b".to_string(), 4), 1);
    assert_eq!(store.send("a".to_string(), 5), 2);
}

#[test]
fn poll_returns_message_at_offset() {
    let mut store = LogStore::new();
    store.send("a".to_string(), 10);
    store.send("a".to_string(), 20);
    let r = store.poll(&pairs(&[("a", 0)]));
    assert_eq!(r, vec![("a".to_string(), vec![(0, 10)])]);
}

#[test]
fn poll_beyond_watermark_is_empty_regardless_of_log() {
    let mut store = LogStore::new();
    store.send("a".to_string(), 10);
    store.send("a".to_string(), 20);
    // Nothing committed: the lower bound is 0, so offset 1 is refused even
    // though the log holds a message at position 1.
    let r = store.poll(&pairs(&[("a", 1)]));
    assert_eq!(r, vec![("a".to_string(), vec![])]);
}

#[test]
fn poll_past_end_of_log_is_empty() {
    let mut store = LogStore::new();
    store.send("a".to_string(), 10);
    store.send("a".to_string(), 20);
    // A commit far beyond the log raises the lower bound without a check,
    // but polling a position the log lacks still returns nothing.
    store.commit_offsets(&pairs(&[("a", 10)]));
    let r = store.poll(&pairs(&[("a", 5)]));
    assert_eq!(r, vec![("a".to_string(), vec![])]);
}

#[test]
fn poll_of_unknown_key_is_empty() {
    let store = LogStore::new();
    let r = store.poll(&pairs(&[("nope", 0)]));
    assert_eq!(r, vec![("nope".to_string(), vec![])]);
}

#[test]
fn commit_offsets_is_monotone() {
    let mut store = LogStore::new();
    store.commit_offsets(&pairs(&[("a", 3)]));
    store.commit_offsets(&pairs(&[("a", 1)]));
    let r = store.list_committed_offsets(&keys(&["a"]));
    assert_eq!(r, vec![("a".to_string(), 3)]);
}

#[test]
fn commit_offsets_can_advance() {
    let mut store = LogStore::new();
    store.commit_offsets(&pairs(&[("a", 1)]));
    store.commit_offsets(&pairs(&[("a", 4)]));
    let r = store.list_committed_offsets(&keys(&["a"]));
    assert_eq!(r, vec![("a".to_string(), 4)]);
}

#[test]
fn list_omits_never_committed_keys() {
    let mut store = LogStore::new();
    store.send("b".to_string(), 7);
    store.commit_offsets(&pairs(&[("a", 0)]));
    let r = store.list_committed_offsets(&keys(&["a", "b"]));
    assert_eq!(r, vec![("a".to_string(), 0)]);
}

#[test]
fn end_to_end_store_level() {
    let mut store = LogStore::new();
    assert_eq!(store.send("a".to_string(), 10), 0);
    assert_eq!(store.send("a".to_string(), 20), 1);
    let r = store.poll(&pairs(&[("a", 0)]));
    assert_eq!(r, vec![("a".to_string(), vec![(0, 10)])]);
    store.commit_offsets(&pairs(&[("a", 0)]));
    let r = store.poll(&pairs(&[("a", 1)]));
    assert_eq!(r, vec![("a".to_string(), vec![(1, 20)])]);
    let r = store.list_committed_offsets(&keys(&["a", "b"]));
    assert_eq!(r, vec![("a".to_string(), 0)]);
}
