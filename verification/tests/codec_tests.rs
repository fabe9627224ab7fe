use commit_log::codec::{
    format_decimal, handle_request, parse_decimal, parse_offsets, parse_request, ParseRequestError,
    Request,
};
use commit_log::store::LogStore;

#[test]
fn parse_decimal_accepts_plain_digits() {
    assert_eq!(parse_decimal("0"), Some(0));
    assert_eq!(parse_decimal("42"), Some(42));
    assert_eq!(parse_decimal("007"), Some(7));
}

#[test]
fn parse_decimal_rejects_non_digits() {
    assert_eq!(parse_decimal(""), None);
    assert_eq!(parse_decimal("12a"), None);
    assert_eq!(parse_decimal("-1"), None);
    assert_eq!(parse_decimal("+5"), None);
    assert_eq!(parse_decimal(" 5"), None);
}

#[test]
fn parse_decimal_rejects_overflow() {
    assert_eq!(parse_decimal("99999999999999999999999999"), None);
}

#[test]
fn format_decimal_renders_canonically() {
    assert_eq!(format_decimal(0), "0");
    assert_eq!(format_decimal(7), "7");
    assert_eq!(format_decimal(1234), "1234");
}

#[test]
fn decimal_round_trip() {
    for n in [0usize, 1, 9, 10, 99, 100, 123456] {
        assert_eq!(parse_decimal(&format_decimal(n)), Some(n));
    }
}

#[test]
fn parse_request_send() {
    let r = parse_request("send:k1:42");
    assert_eq!(r, Ok(Request::Send { key: "k1".to_string(), msg: 42 }));
}

#[test]
fn parse_request_poll() {
    let r = parse_request("poll:a:1:b:2::");
    assert_eq!(
        r,
        Ok(Request::Poll { offsets: vec![("a".to_string(), 1), ("b".to_string(), 2)] })
    );
}

#[test]
fn parse_request_poll_duplicate_key_last_wins() {
    let r = parse_request("poll:a:1:a:2::");
    assert_eq!(r, Ok(Request::Poll { offsets: vec![("a".to_string(), 2)] }));
}

#[test]
fn parse_request_commit_offsets() {
    let r = parse_request("commit-offsets:a:3::");
    assert_eq!(r, Ok(Request::CommitOffsets { offsets: vec![("a".to_string(), 3)] }));
}

#[test]
fn parse_request_list_committed_offsets() {
    let r = parse_request("list-committed-offsets:a:b::");
    assert_eq!(
        r,
        Ok(Request::ListCommittedOffsets { keys: vec!["a".to_string(), "b".to_string()] })
    );
}

#[test]
fn parse_request_list_keeps_duplicate_keys() {
    let r = parse_request("list-committed-offsets:a:a::");
    assert_eq!(
        r,
        Ok(Request::ListCommittedOffsets { keys: vec!["a".to_string(), "a".to_string()] })
    );
}

#[test]
fn parse_request_missing_separator_is_invalid_format() {
    let r = parse_request("send");
    assert_eq!(r, Err(ParseRequestError::InvalidFormat("send".to_string())));
}

#[test]
fn parse_request_unknown_command_is_invalid_command() {
    let r = parse_request("frob:x");
    assert_eq!(r, Err(ParseRequestError::InvalidCommand("frob".to_string())));
}

#[test]
fn parse_request_bad_number_is_invalid_number() {
    let r = parse_request("send:k:abc");
    assert_eq!(r, Err(ParseRequestError::InvalidNumber("abc".to_string())));
}

#[test]
fn parse_offsets_unterminated_list_is_invalid_format() {
    let r = parse_offsets("a:1");
    assert_eq!(r, Err(ParseRequestError::InvalidFormat("1".to_string())));
}

#[test]
fn parse_offsets_empty_list() {
    assert_eq!(parse_offsets(":"), Ok(vec![]));
}

#[test]
fn handle_request_end_to_end() {
    let mut store = LogStore::new();
    assert_eq!(handle_request(&mut store, "send:a:10"), "0");
    assert_eq!(handle_request(&mut store, "send:a:20"), "1");
    assert_eq!(handle_request(&mut store, "poll:a:0::"), "{\"a\":[[0,10]]}");
    assert_eq!(handle_request(&mut store, "commit-offsets:a:0::"), "");
    assert_eq!(handle_request(&mut store, "poll:a:1::"), "{\"a\":[[1,20]]}");
    assert_eq!(
        handle_request(&mut store, "list-committed-offsets:a:b::"),
        "{\"a\":0}"
    );
}

#[test]
fn handle_request_malformed_leaves_store_unaffected() {
    let mut store = LogStore::new();
    assert_eq!(handle_request(&mut store, "send:a:10"), "0");
    assert_eq!(handle_request(&mut store, "garbage"), "");
    assert_eq!(handle_request(&mut store, "send:onlykey"), "");
    assert_eq!(handle_request(&mut store, "frob:x:y"), "");
    // The store still serves, and the failed lines appended nothing.
    assert_eq!(handle_request(&mut store, "send:a:20"), "1");
    assert_eq!(handle_request(&mut store, "send:onlykey:5"), "0");
}

#[test]
fn handle_request_poll_multiple_keys_sorted_object() {
    let mut store = LogStore::new();
    handle_request(&mut store, "send:b:5");
    handle_request(&mut store, "send:a:3");
    assert_eq!(
        handle_request(&mut store, "poll:b:0:a:0::"),
        "{\"a\":[[0,3]],\"b\":[[0,5]]}"
    );
}
