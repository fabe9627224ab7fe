use commit_log::client::{
    commit_request, list_request, poll_request, send_request, serialize_offsets, Context,
    ContextInitializationError, ContextWhoamiError,
};
use commit_log::codec::{parse_request, Request};
use commit_log::wire::{parse_list_response, parse_poll_response};

#[test]
fn context_initializes_exactly_once() {
    let mut ctx = Context::new();
    assert!(matches!(ctx.whoami(), Err(ContextWhoamiError::NotInitialized)));
    assert!(ctx
        .initialize("n1".to_string(), vec!["n1".to_string(), "n2".to_string()])
        .is_ok());
    assert_eq!(ctx.whoami().unwrap(), "n1");
    assert!(matches!(
        ctx.initialize("n2".to_string(), vec![]),
        Err(ContextInitializationError::AlreadyInitialized)
    ));
    assert_eq!(ctx.whoami().unwrap(), "n1");
}

#[test]
fn counter_hands_out_consecutive_ids() {
    let mut ctx = Context::new();
    assert_eq!(ctx.read_counter_and_increment(), 0);
    assert_eq!(ctx.read_counter_and_increment(), 1);
    assert_eq!(ctx.read_counter_and_increment(), 2);
}

#[test]
fn push_message_accepts_broadcasts() {
    let mut ctx = Context::new();
    ctx.push_message(5);
    ctx.push_message(7);
}

#[test]
fn send_request_text() {
    assert_eq!(send_request(&"a".to_string(), 10), "send:a:10");
}

#[test]
fn serialize_offsets_text() {
    assert_eq!(serialize_offsets(&vec![]), "");
    assert_eq!(
        serialize_offsets(&vec![("a".to_string(), 3), ("b".to_string(), 1)]),
        "a:3:b:1"
    );
}

#[test]
fn poll_request_text() {
    assert_eq!(poll_request(&vec![("a".to_string(), 0)]), "poll:a:0::");
    assert_eq!(poll_request(&vec![]), "poll:::");
}

#[test]
fn commit_request_text() {
    assert_eq!(
        commit_request(&vec![("a".to_string(), 3), ("b".to_string(), 1)]),
        "commit-offsets:a:3:b:1::"
    );
}

#[test]
fn list_request_text() {
    assert_eq!(
        list_request(&vec!["a".to_string(), "b".to_string()]),
        "list-committed-offsets:a:b::"
    );
}

#[test]
fn built_requests_parse_back() {
    let r = parse_request(&send_request(&"k".to_string(), 9));
    assert_eq!(r, Ok(Request::Send { key: "k".to_string(), msg: 9 }));
    let r = parse_request(&poll_request(&vec![("a".to_string(), 2)]));
    assert_eq!(r, Ok(Request::Poll { offsets: vec![("a".to_string(), 2)] }));
    let r = parse_request(&commit_request(&vec![("a".to_string(), 2)]));
    assert_eq!(r, Ok(Request::CommitOffsets { offsets: vec![("a".to_string(), 2)] }));
    let r = parse_request(&list_request(&vec!["a".to_string()]));
    assert_eq!(r, Ok(Request::ListCommittedOffsets { keys: vec!["a".to_string()] }));
}

#[test]
fn poll_response_parses() {
    let v = parse_poll_response("{\"a\":[[0,10]],\"b\":[]}").unwrap();
    assert_eq!(
        v,
        vec![("a".to_string(), vec![(0, 10)]), ("b".to_string(), vec![])]
    );
    assert!(parse_poll_response("garbage").is_none());
    assert!(parse_poll_response("").is_none());
}

#[test]
fn list_response_parses() {
    let v = parse_list_response("{\"a\":0,\"b\":4}").unwrap();
    assert_eq!(v, vec![("a".to_string(), 0), ("b".to_string(), 4)]);
    assert!(parse_list_response("17").is_none());
}
