use kvs::protocol::{
    exit_code, get_request, outcome, parse_request, rm_request, serve, set_request, split_tokens,
    trim_padding, Operation, Outcome, Request, FRAME_SIZE,
};
use kvs::{Directory, KvStore};

fn blank_store() -> KvStore {
    KvStore::open(Directory { log: Vec::new(), segments: Vec::new() }).unwrap()
}

fn string(text: &str) -> String {
    text.to_string()
}

#[test]
fn frame_size_is_one_hundred_bytes() {
    assert_eq!(FRAME_SIZE, 100);
}

#[test]
fn padding_is_cut_off_the_end_only() {
    assert_eq!(trim_padding("get k\0\0\0"), "get k");
    assert_eq!(trim_padding("\0get\0k"), "\0get\0k");
    assert_eq!(trim_padding("\0\0"), "");
    assert_eq!(trim_padding(""), "");
}

#[test]
fn tokens_are_split_on_single_spaces() {
    assert_eq!(split_tokens("set k v"), vec![string("set"), string("k"), string("v")]);
    assert_eq!(split_tokens("a  b"), vec![string("a"), string(""), string("b")]);
    assert_eq!(split_tokens(" a "), vec![string(""), string("a"), string("")]);
    assert_eq!(split_tokens(""), vec![string("")]);
    assert_eq!(split_tokens("get \u{e9}t\u{e9}"), vec![string("get"), string("\u{e9}t\u{e9}")]);
}

#[test]
fn requests_are_read_from_padded_frames() {
    let mut frame = String::from("set key value");
    while frame.len() < FRAME_SIZE {
        frame.push('\0');
    }
    match parse_request(&frame) {
        Request::Store { key, value } => {
            assert_eq!(key, "key");
            assert_eq!(value, "value");
        }
        other => panic!("unexpected: {:?}", other),
    }
    assert!(matches!(parse_request("get k"), Request::Fetch { key } if key == "k"));
    assert!(matches!(parse_request("rm k\0"), Request::Remove { key } if key == "k"));
}

#[test]
fn frames_with_the_wrong_number_of_tokens_are_malformed() {
    assert!(matches!(parse_request("set k"), Request::Malformed { text } if text == "set k"));
    assert!(matches!(parse_request("set k v w"), Request::Malformed { .. }));
    assert!(matches!(parse_request("get"), Request::Malformed { .. }));
    assert!(matches!(parse_request("get a b"), Request::Malformed { .. }));
    assert!(matches!(parse_request("rm"), Request::Malformed { .. }));
    assert!(matches!(parse_request("del k"), Request::Malformed { .. }));
    assert!(matches!(parse_request(""), Request::Malformed { text } if text.is_empty()));
    assert!(matches!(parse_request("SET k v"), Request::Malformed { .. }));
}

#[test]
fn set_is_answered_with_an_empty_reply() {
    let mut store = blank_store();
    let response = serve(&mut store, parse_request("set foo bar"));
    assert_eq!(response.reply, "");
    assert_eq!(response.diagnostic, None);
    assert_eq!(store.get(string("foo")).unwrap(), Some(string("bar")));
}

#[test]
fn get_is_answered_with_the_value_or_key_not_found() {
    let mut store = blank_store();
    serve(&mut store, parse_request("set foo bar"));
    let hit = serve(&mut store, parse_request("get foo"));
    assert_eq!(hit.reply, "bar");
    assert_eq!(hit.diagnostic, None);
    let miss = serve(&mut store, parse_request("get nothing"));
    assert_eq!(miss.reply, "Key not found");
    assert_eq!(miss.diagnostic, Some(string("Get Error: Key not found")));
}

#[test]
fn rm_is_answered_with_an_empty_reply_or_key_not_found() {
    let mut store = blank_store();
    serve(&mut store, parse_request("set a x"));
    let done = serve(&mut store, parse_request("rm a"));
    assert_eq!(done.reply, "");
    assert_eq!(done.diagnostic, None);
    let again = serve(&mut store, parse_request("rm a"));
    assert_eq!(again.reply, "Key not found");
    assert_eq!(again.diagnostic, Some(string("Remove Error: Key not found")));
    let gone = serve(&mut store, parse_request("get a"));
    assert_eq!(gone.reply, "Key not found");
}

#[test]
fn a_malformed_request_gets_no_reply_and_changes_nothing() {
    let mut store = blank_store();
    let response = serve(&mut store, parse_request("shout k"));
    assert_eq!(response.reply, "");
    assert_eq!(response.diagnostic, Some(string("error command shout k")));
    assert!(store.directory().log.is_empty());
}

#[test]
fn engine_failures_get_no_reply() {
    let bad = kvs::Segment { name: string("sstable_00000000000000000000"), data: b"{".to_vec() };
    let mut store = KvStore::open(Directory { log: Vec::new(), segments: vec![bad] }).unwrap();
    let read = serve(&mut store, parse_request("get k"));
    assert_eq!(read.reply, "");
    assert_eq!(read.diagnostic, Some(string("Get Error")));
    let removal = serve(&mut store, parse_request("rm k"));
    assert_eq!(removal.reply, "");
    assert_eq!(removal.diagnostic, Some(string("Remove Error")));
}

#[test]
fn client_frames_join_the_tokens_with_spaces() {
    assert_eq!(set_request("k", "v"), "set k v");
    assert_eq!(get_request("k"), "get k");
    assert_eq!(rm_request("k"), "rm k");
    assert_eq!(set_request("", ""), "set  ");
}

#[test]
fn a_client_frame_is_read_back_as_the_same_request() {
    assert!(matches!(
        parse_request(&set_request("key", "value")),
        Request::Store { key, value } if key == "key" && value == "value"
    ));
    assert!(matches!(parse_request(&get_request("key")), Request::Fetch { key } if key == "key"));
    assert!(matches!(parse_request(&rm_request("key")), Request::Remove { key } if key == "key"));
}

#[test]
fn a_value_with_a_space_is_not_carried() {
    assert!(matches!(parse_request(&set_request("k", "two words")), Request::Malformed { .. }));
}

#[test]
fn the_client_prints_fails_or_stays_quiet() {
    assert!(matches!(outcome(Operation::Fetch, string("bar")), Outcome::Print(text) if text == "bar"));
    assert!(matches!(outcome(Operation::Fetch, string("")), Outcome::Print(text) if text.is_empty()));
    assert!(matches!(outcome(Operation::Store, string("ignored")), Outcome::Quiet));
    assert!(matches!(outcome(Operation::Remove, string("")), Outcome::Quiet));
    assert!(matches!(
        outcome(Operation::Remove, string("Key not found")),
        Outcome::Fail(text) if text == "Key not found"
    ));
}

#[test]
fn only_a_failure_exits_with_one() {
    assert_eq!(exit_code(&Outcome::Fail(string("Key not found"))), 1);
    assert_eq!(exit_code(&Outcome::Quiet), 0);
    assert_eq!(exit_code(&Outcome::Print(string("v"))), 0);
}

#[test]
fn scenario_over_the_wire() {
    let mut store = blank_store();
    for frame in ["set k 1", "set k 2", "set k 3"] {
        assert_eq!(serve(&mut store, parse_request(frame)).reply, "");
    }
    assert_eq!(serve(&mut store, parse_request("get k")).reply, "3");
    let miss = serve(&mut store, parse_request("rm never"));
    assert_eq!(exit_code(&outcome(Operation::Remove, miss.reply)), 1);
}
