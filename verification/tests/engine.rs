use kvs::{Directory, KvStore, KvsError, Segment};

fn empty_directory() -> Directory {
    Directory { log: Vec::new(), segments: Vec::new() }
}

fn fresh_store() -> KvStore {
    KvStore::open(empty_directory()).unwrap()
}

fn text(text: &str) -> String {
    text.to_string()
}

#[test]
fn set_then_get_returns_the_value() {
    let mut store = fresh_store();
    store.set(text("foo"), text("bar")).unwrap();
    assert_eq!(store.get(text("foo")).unwrap(), Some(text("bar")));
}

#[test]
fn last_of_several_sets_wins() {
    let mut store = fresh_store();
    store.set(text("k"), text("1")).unwrap();
    store.set(text("k"), text("2")).unwrap();
    store.set(text("k"), text("3")).unwrap();
    assert_eq!(store.get(text("k")).unwrap(), Some(text("3")));
}

#[test]
fn removed_key_is_gone_and_cannot_be_removed_again() {
    let mut store = fresh_store();
    store.set(text("a"), text("x")).unwrap();
    store.remove(text("a")).unwrap();
    assert_eq!(store.get(text("a")).unwrap(), None);
    assert!(matches!(store.remove(text("a")), Err(KvsError::KeyNotFound)));
}

#[test]
fn remove_on_empty_store_reports_key_not_found() {
    let mut store = fresh_store();
    assert!(matches!(store.remove(text("never")), Err(KvsError::KeyNotFound)));
    assert!(store.directory().log.is_empty());
}

#[test]
fn get_of_unknown_key_is_none() {
    let store = fresh_store();
    assert_eq!(store.get(text("nothing")).unwrap(), None);
}

#[test]
fn set_writes_one_json_record_to_the_log() {
    let mut store = fresh_store();
    store.set(text("k"), text("v")).unwrap();
    assert_eq!(
        store.directory().log,
        br#"{"action":"set","key":"k","value":"v"}"#.to_vec()
    );
}

#[test]
fn remove_writes_a_tombstone_with_an_empty_value() {
    let mut store = fresh_store();
    store.set(text("k"), text("v")).unwrap();
    store.remove(text("k")).unwrap();
    assert_eq!(
        store.directory().log,
        br#"{"action":"set","key":"k","value":"v"}{"action":"rm","key":"k","value":""}"#.to_vec()
    );
}

#[test]
fn records_escape_quotes_and_control_characters() {
    let mut store = fresh_store();
    store.set(text("a \"quoted\" key"), text("line\nbreak\\ and \u{e9}\u{4e2d}")).unwrap();
    assert_eq!(
        store.get(text("a \"quoted\" key")).unwrap(),
        Some(text("line\nbreak\\ and \u{e9}\u{4e2d}"))
    );
    let reopened = KvStore::open(store.directory().clone()).unwrap();
    assert_eq!(
        reopened.get(text("a \"quoted\" key")).unwrap(),
        Some(text("line\nbreak\\ and \u{e9}\u{4e2d}"))
    );
}

#[test]
fn empty_key_and_empty_value_are_stored() {
    let mut store = fresh_store();
    store.set(text(""), text("")).unwrap();
    assert_eq!(store.get(text("")).unwrap(), Some(text("")));
    store.remove(text("")).unwrap();
    assert_eq!(store.get(text("")).unwrap(), None);
}

#[test]
fn set_leaves_other_keys_alone() {
    let mut store = fresh_store();
    store.set(text("a"), text("1")).unwrap();
    store.set(text("b"), text("2")).unwrap();
    store.set(text("a"), text("3")).unwrap();
    assert_eq!(store.get(text("b")).unwrap(), Some(text("2")));
    store.remove(text("a")).unwrap();
    assert_eq!(store.get(text("b")).unwrap(), Some(text("2")));
}

#[test]
fn reopening_gives_the_same_answers() {
    let mut store = fresh_store();
    store.set(text("a"), text("1")).unwrap();
    store.set(text("b"), text("2")).unwrap();
    store.remove(text("a")).unwrap();
    store.set(text("c"), text("3")).unwrap();
    let dir = store.into_directory();
    let reopened = KvStore::open(dir.clone()).unwrap();
    assert_eq!(reopened.get(text("a")).unwrap(), None);
    assert_eq!(reopened.get(text("b")).unwrap(), Some(text("2")));
    assert_eq!(reopened.get(text("c")).unwrap(), Some(text("3")));
    assert_eq!(reopened.directory().log, dir.log);
    assert_eq!(reopened.directory().segments.len(), dir.segments.len());
}

#[test]
fn open_reads_a_log_written_elsewhere() {
    let log = br#"{"action":"set","key":"a","value":"1"}
{"value":"2","key":"b","action":"set","note":"extra"}  {"action":"rm","key":"a","value":""}"#;
    let store = KvStore::open(Directory { log: log.to_vec(), segments: Vec::new() }).unwrap();
    assert_eq!(store.get(text("a")).unwrap(), None);
    assert_eq!(store.get(text("b")).unwrap(), Some(text("2")));
    assert_eq!(store.directory().log, log.to_vec());
}

#[test]
fn open_drops_blank_bytes_after_the_last_record() {
    let log = b"{\"action\":\"set\",\"key\":\"a\",\"value\":\"1\"} \n\t ";
    let mut store = KvStore::open(Directory { log: log.to_vec(), segments: Vec::new() }).unwrap();
    assert_eq!(
        store.directory().log,
        br#"{"action":"set","key":"a","value":"1"}"#.to_vec()
    );
    store.set(text("b"), text("2")).unwrap();
    assert_eq!(store.get(text("a")).unwrap(), Some(text("1")));
    assert_eq!(store.get(text("b")).unwrap(), Some(text("2")));
}

#[test]
fn open_of_a_blank_log_gives_an_empty_store() {
    let store = KvStore::open(Directory { log: b"  \n".to_vec(), segments: Vec::new() }).unwrap();
    assert!(store.directory().log.is_empty());
    assert_eq!(store.get(text("a")).unwrap(), None);
}

#[test]
fn open_fails_on_a_log_that_is_no_json() {
    let r = KvStore::open(Directory { log: b"not json".to_vec(), segments: Vec::new() });
    assert!(matches!(r, Err(KvsError::SerdeError(_))));
}

#[test]
fn open_fails_on_a_record_cut_short() {
    let log = br#"{"action":"set","key":"a","value":"1"}{"action":"set","ke"#;
    let r = KvStore::open(Directory { log: log.to_vec(), segments: Vec::new() });
    assert!(matches!(r, Err(KvsError::SerdeError(_))));
}

#[test]
fn open_fails_on_a_record_that_lacks_a_field() {
    let log = br#"{"action":"set","key":"a"}"#;
    match KvStore::open(Directory { log: log.to_vec(), segments: Vec::new() }) {
        Err(KvsError::SerdeError(e)) => assert!(e.to_string().contains("missing field `value`")),
        other => panic!("unexpected: {:?}", other.map(|_| ())),
    }
}

#[test]
fn open_fails_on_a_field_that_is_no_string() {
    let log = br#"{"action":"set","key":"a","value":1}"#;
    let r = KvStore::open(Directory { log: log.to_vec(), segments: Vec::new() });
    assert!(matches!(r, Err(KvsError::SerdeError(_))));
}

#[test]
fn records_of_unknown_action_are_counted_and_ignored() {
    let log = br#"{"action":"set","key":"a","value":"1"}{"action":"touch","key":"a","value":"9"}"#;
    let store = KvStore::open(Directory { log: log.to_vec(), segments: Vec::new() }).unwrap();
    assert_eq!(store.get(text("a")).unwrap(), Some(text("1")));
}

#[test]
fn get_falls_back_to_segments_newest_first() {
    let old = Segment {
        name: text("sstable_00000000000000000000"),
        data: br#"{"action":"set","key":"k","value":"old"}{"action":"set","key":"only_old","value":"o"}"#.to_vec(),
    };
    let new = Segment {
        name: text("sstable_00000000000000000001"),
        data: br#"{"action":"set","key":"k","value":"first"}{"action":"set","key":"k","value":"new"}"#.to_vec(),
    };
    let store = KvStore::open(Directory { log: Vec::new(), segments: vec![new, old] }).unwrap();
    assert_eq!(store.directory().segments[0].name, "sstable_00000000000000000000");
    assert_eq!(store.get(text("k")).unwrap(), Some(text("new")));
    assert_eq!(store.get(text("only_old")).unwrap(), Some(text("o")));
    assert_eq!(store.get(text("absent")).unwrap(), None);
}

#[test]
fn a_tombstone_in_a_newer_segment_hides_older_segments() {
    let old = Segment {
        name: text("sstable_00000000000000000000"),
        data: br#"{"action":"set","key":"k","value":"old"}"#.to_vec(),
    };
    let new = Segment {
        name: text("sstable_00000000000000000001"),
        data: br#"{"action":"rm","key":"k","value":""}"#.to_vec(),
    };
    let mut store = KvStore::open(Directory { log: Vec::new(), segments: vec![old, new] }).unwrap();
    assert_eq!(store.get(text("k")).unwrap(), None);
    assert!(matches!(store.remove(text("k")), Err(KvsError::KeyNotFound)));
}

#[test]
fn the_log_wins_over_the_segments() {
    let seg = Segment {
        name: text("sstable_00000000000000000000"),
        data: br#"{"action":"set","key":"k","value":"old"}"#.to_vec(),
    };
    let mut store = KvStore::open(Directory { log: Vec::new(), segments: vec![seg] }).unwrap();
    store.set(text("k"), text("new")).unwrap();
    assert_eq!(store.get(text("k")).unwrap(), Some(text("new")));
}

#[test]
fn remove_of_a_key_that_lives_in_a_segment_appends_a_tombstone() {
    let seg = Segment {
        name: text("sstable_00000000000000000000"),
        data: br#"{"action":"set","key":"k","value":"old"}"#.to_vec(),
    };
    let mut store = KvStore::open(Directory { log: Vec::new(), segments: vec![seg] }).unwrap();
    store.remove(text("k")).unwrap();
    assert_eq!(
        store.directory().log,
        br#"{"action":"rm","key":"k","value":""}"#.to_vec()
    );
    // A tombstone in the log does not hide a segment: the key answers with
    // what the segments say of it.
    assert_eq!(store.get(text("k")).unwrap(), Some(text("old")));
}

#[test]
fn a_corrupt_segment_fails_reads_that_reach_it() {
    let good = Segment {
        name: text("sstable_00000000000000000001"),
        data: br#"{"action":"set","key":"k","value":"v"}"#.to_vec(),
    };
    let bad = Segment { name: text("sstable_00000000000000000000"), data: b"{oops".to_vec() };
    let mut store = KvStore::open(Directory { log: Vec::new(), segments: vec![bad, good] }).unwrap();
    assert_eq!(store.get(text("k")).unwrap(), Some(text("v")));
    assert!(matches!(store.get(text("other")), Err(KvsError::SerdeError(_))));
    assert!(matches!(store.remove(text("other")), Err(KvsError::SerdeError(_))));
    assert!(store.directory().log.is_empty());
}

#[test]
fn files_that_are_no_segments_are_left_out() {
    let junk = Segment { name: text("notes.txt"), data: b"{oops".to_vec() };
    let store = KvStore::open(Directory { log: Vec::new(), segments: vec![junk] }).unwrap();
    assert!(store.directory().segments.is_empty());
    assert_eq!(store.get(text("k")).unwrap(), None);
}

#[test]
fn errors_convert_from_their_sources() {
    let io = std::io::Error::new(std::io::ErrorKind::Other, "disk");
    assert!(matches!(KvsError::from(io), KvsError::IoError(_)));
    let json = serde_json::from_str::<u8>("x").unwrap_err();
    assert!(matches!(KvsError::from(json), KvsError::SerdeError(_)));
}

#[test]
fn errors_have_a_text() {
    assert_eq!(KvsError::KeyNotFound.message(), "Key not found");
    assert_eq!(KvsError::OtherError.message(), "Other Error");
    let io = std::io::Error::new(std::io::ErrorKind::Other, "disk is full");
    assert_eq!(KvsError::from(io).message(), "disk is full");
    let json = serde_json::from_str::<u8>("x").unwrap_err();
    let text = json.to_string();
    assert_eq!(KvsError::from(json).message(), text);
}

#[test]
fn set_appends_to_the_log_and_leaves_the_segments_alone() {
    let mut store = fresh_store();
    for i in 0..2000 {
        store.set(format!("key{}", i), text("v")).unwrap();
    }
    let before = store.directory().clone();
    store.set(text("one"), text("more")).unwrap();
    let between = store.directory().clone();
    assert_eq!(between.segments.len(), before.segments.len() + 1);
    store.set(text("and"), text("another")).unwrap();
    let after = store.directory();
    assert_eq!(after.segments.len(), between.segments.len());
    assert_eq!(after.segments[0].data, between.segments[0].data);
    assert!(after.log.starts_with(&between.log));
    assert_eq!(
        after.log[between.log.len()..].to_vec(),
        br#"{"action":"set","key":"and","value":"another"}"#.to_vec()
    );
}
