use kvs::{Directory, KvStore, KvsError, COMPACTION_THRESHOLD};

fn new_store() -> KvStore {
    KvStore::open(Directory { log: Vec::new(), segments: Vec::new() }).unwrap()
}

fn owned(text: &str) -> String {
    text.to_string()
}

#[test]
fn threshold_is_two_thousand() {
    assert_eq!(COMPACTION_THRESHOLD, 2000);
}

#[test]
fn two_thousand_records_do_not_compact() {
    let mut store = new_store();
    for i in 0..2000 {
        store.set(format!("key{}", i), format!("value{}", i)).unwrap();
    }
    assert!(store.directory().segments.is_empty());
}

#[test]
fn record_two_thousand_and_one_folds_the_first_two_thousand() {
    let mut store = new_store();
    for i in 0..2001 {
        store.set(format!("key{}", i), format!("value{}", i)).unwrap();
    }
    let dir = store.directory();
    assert_eq!(dir.segments.len(), 1);
    assert_eq!(dir.segments[0].name, "sstable_00000000000000000000");
    assert_eq!(
        dir.log,
        br#"{"action":"set","key":"key2000","value":"value2000"}"#.to_vec()
    );
    assert!(dir.segments[0]
        .data
        .starts_with(br#"{"action":"set","key":"key0","value":"value0"}{"action":"set","key":"key1","#));
    assert!(dir.segments[0]
        .data
        .ends_with(br#"{"action":"set","key":"key1999","value":"value1999"}"#));
}

#[test]
fn compaction_keeps_every_answer() {
    let mut store = new_store();
    for i in 0..2000 {
        store.set(format!("key{}", i % 700), format!("value{}", i)).unwrap();
    }
    let mut before = Vec::new();
    for i in 0..700 {
        before.push(store.get(format!("key{}", i)).unwrap());
    }
    store.set(owned("trigger"), owned("now")).unwrap();
    assert_eq!(store.directory().segments.len(), 1);
    for i in 0..700 {
        assert_eq!(store.get(format!("key{}", i)).unwrap(), before[i]);
    }
    assert_eq!(store.get(owned("key699")).unwrap(), Some(owned("value1399")));
    assert_eq!(store.get(owned("key599")).unwrap(), Some(owned("value1999")));
    assert_eq!(store.get(owned("trigger")).unwrap(), Some(owned("now")));
}

#[test]
fn a_segment_holds_one_record_for_each_surviving_key() {
    let mut store = new_store();
    for i in 0..1000 {
        store.set(owned("same"), format!("value{}", i)).unwrap();
    }
    for i in 0..1000 {
        store.set(format!("other{}", i), owned("x")).unwrap();
    }
    store.set(owned("trigger"), owned("now")).unwrap();
    let data = String::from_utf8(store.directory().segments[0].data.clone()).unwrap();
    assert_eq!(data.matches("{\"action\"").count(), 1001);
    assert_eq!(data.matches("\"key\":\"same\"").count(), 1);
    assert!(data.starts_with(r#"{"action":"set","key":"same","value":"value999"}{"action":"set","key":"other0","value":"x"}"#));
    assert_eq!(store.get(owned("same")).unwrap(), Some(owned("value999")));
    assert_eq!(store.get(owned("other999")).unwrap(), Some(owned("x")));
}

#[test]
fn removed_keys_are_not_written_to_the_segment() {
    let mut store = new_store();
    store.set(owned("dead"), owned("1")).unwrap();
    store.remove(owned("dead")).unwrap();
    store.set(owned("live"), owned("a")).unwrap();
    store.set(owned("live"), owned("b")).unwrap();
    for i in 0..1996 {
        store.set(owned("fill"), format!("{}", i)).unwrap();
    }
    assert!(store.directory().segments.is_empty());
    store.set(owned("last"), owned("z")).unwrap();
    assert_eq!(
        store.directory().segments[0].data,
        br#"{"action":"set","key":"live","value":"b"}{"action":"set","key":"fill","value":"1995"}"#.to_vec()
    );
    assert_eq!(store.get(owned("dead")).unwrap(), None);
    assert!(matches!(store.remove(owned("dead")), Err(KvsError::KeyNotFound)));
    assert_eq!(store.get(owned("live")).unwrap(), Some(owned("b")));
}

#[test]
fn two_thousand_five_hundred_keys_survive_a_reopen() {
    let mut store = new_store();
    for i in 0..2500 {
        store.set(format!("key{}", i), format!("value{}", i)).unwrap();
    }
    let dir = store.into_directory();
    assert!(!dir.segments.is_empty());
    assert!(dir.segments.iter().all(|seg| seg.name.starts_with("sstable_")));
    let reopened = KvStore::open(dir).unwrap();
    for i in 0..2500 {
        assert_eq!(reopened.get(format!("key{}", i)).unwrap(), Some(format!("value{}", i)));
    }
}

#[test]
fn later_segments_get_later_names() {
    let mut store = new_store();
    for i in 0..6001 {
        store.set(format!("key{}", i % 10), format!("value{}", i)).unwrap();
    }
    let names: Vec<&str> = store.directory().segments.iter().map(|seg| seg.name.as_str()).collect();
    assert_eq!(
        names,
        vec![
            "sstable_00000000000000000000",
            "sstable_00000000000000000001",
            "sstable_00000000000000000002"
        ]
    );
    for i in 0..10 {
        assert_eq!(store.get(format!("key{}", i)).unwrap(), Some(format!("value{}", 5990 + i + if i == 0 { 10 } else { 0 })));
    }
}

#[test]
fn open_compacts_a_long_log_as_often_as_it_takes() {
    let mut log = Vec::new();
    for i in 0..4500 {
        log.extend_from_slice(
            format!("{{\"action\":\"set\",\"key\":\"key{}\",\"value\":\"value{}\"}}\n", i % 3000, i).as_bytes(),
        );
    }
    let store = KvStore::open(Directory { log, segments: Vec::new() }).unwrap();
    assert_eq!(store.directory().segments.len(), 2);
    assert_eq!(store.get(owned("key0")).unwrap(), Some(owned("value3000")));
    assert_eq!(store.get(owned("key1499")).unwrap(), Some(owned("value4499")));
    assert_eq!(store.get(owned("key1500")).unwrap(), Some(owned("value1500")));
    assert_eq!(store.get(owned("key2999")).unwrap(), Some(owned("value2999")));
}

#[test]
fn a_compacted_set_outlives_a_later_removal() {
    // The segments hold no tombstones and the log's tombstones do not hide
    // them, so a key that was folded into a segment answers again once it
    // is removed.
    let mut store = new_store();
    store.set(owned("k"), owned("v")).unwrap();
    for i in 0..2000 {
        store.set(owned("fill"), format!("{}", i)).unwrap();
    }
    assert_eq!(store.directory().segments.len(), 1);
    assert_eq!(store.get(owned("k")).unwrap(), Some(owned("v")));
    store.remove(owned("k")).unwrap();
    assert_eq!(store.get(owned("k")).unwrap(), Some(owned("v")));
}

#[test]
fn eight_writers_taking_turns_see_their_own_writes() {
    let mut store = new_store();
    for round in 0..500 {
        for writer in 0..8 {
            store.set(format!("w{}-{}", writer, round), format!("{}", round * 8 + writer)).unwrap();
            assert_eq!(
                store.get(format!("w{}-{}", writer, round)).unwrap(),
                Some(format!("{}", round * 8 + writer))
            );
        }
    }
    for round in 0..500 {
        for writer in 0..8 {
            assert_eq!(
                store.get(format!("w{}-{}", writer, round)).unwrap(),
                Some(format!("{}", round * 8 + writer))
            );
        }
    }
}

#[test]
fn the_log_never_keeps_more_than_the_threshold() {
    let mut store = new_store();
    for i in 0..4100 {
        store.set(owned("k"), format!("{}", i)).unwrap();
        let text = String::from_utf8(store.directory().log.clone()).unwrap();
        assert!(text.matches("{\"action\"").count() <= 2000);
    }
    assert_eq!(store.directory().segments.len(), 2);
    for segment in &store.directory().segments {
        let text = String::from_utf8(segment.data.clone()).unwrap();
        assert_eq!(text.matches("{\"action\"").count(), 1);
    }
    assert_eq!(store.get(owned("k")).unwrap(), Some(owned("4099")));
}

#[test]
fn a_removal_that_brings_compaction_about_is_undone_by_it() {
    // The removal is the record that passes the threshold. Compaction folds
    // the key's `set` into the segment and keeps the `rm` in the log, where
    // it hides nothing.
    let mut store = new_store();
    store.set(owned("k"), owned("v")).unwrap();
    for i in 0..1999 {
        store.set(owned("fill"), format!("{}", i)).unwrap();
    }
    assert!(store.directory().segments.is_empty());
    store.remove(owned("k")).unwrap();
    assert_eq!(store.directory().segments.len(), 1);
    assert_eq!(store.get(owned("k")).unwrap(), Some(owned("v")));
}

#[test]
fn a_segment_of_another_name_is_listed_where_its_name_puts_it() {
    let foreign = kvs::Segment {
        name: owned("sstable_zzz"),
        data: br#"{"action":"set","key":"k","value":"foreign"}"#.to_vec(),
    };
    let mut store = KvStore::open(Directory { log: Vec::new(), segments: vec![foreign] }).unwrap();
    store.set(owned("k"), owned("first")).unwrap();
    for i in 0..2000 {
        store.set(owned("fill"), format!("{}", i)).unwrap();
    }
    // The new segment is the newest, whatever its name.
    assert_eq!(store.directory().segments[1].name, "sstable_00000000000000000001");
    assert_eq!(store.get(owned("k")).unwrap(), Some(owned("first")));
    // Opened again, the directory is listed by name, and the other segment
    // comes last.
    let reopened = KvStore::open(store.into_directory()).unwrap();
    assert_eq!(reopened.directory().segments[1].name, "sstable_zzz");
    assert_eq!(reopened.get(owned("k")).unwrap(), Some(owned("foreign")));
}
