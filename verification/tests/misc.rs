use kvs::address::resolve_address;
use kvs::command::{decode_at, Command};
use kvs::engine::select_survivors;
use kvs::listing::list_segments;
use kvs::names::{is_segment_name, segment_file_name};
use kvs::order::name_lt;
use kvs::segment::{find_in_segments, scan_segment};
use kvs::thread_pool::{on_worker_end, worker_step, Succession, WorkerStep};
use kvs::{valid, KvsError, Segment};

fn st(text: &str) -> String {
    text.to_string()
}

#[test]
fn addresses_need_digits_three_dots_and_one_colon() {
    assert!(valid(&st("127.0.0.1:4000")));
    assert!(valid(&st("1.2.3.4:5")));
    assert!(valid(&st("...:")));
    assert!(valid(&st(":1.2.3.")));
    assert!(valid(&st("999.999.999.999:99999999")));
}

#[test]
fn addresses_of_another_shape_are_refused() {
    assert!(!valid(&st("")));
    assert!(!valid(&st("127.0.0.1")));
    assert!(!valid(&st("127.0.0.1:40:00")));
    assert!(!valid(&st("127.0.1:4000")));
    assert!(!valid(&st("127.0.0.0.1:4000")));
    assert!(!valid(&st("1.2.3.4.5.6:7")));
    assert!(!valid(&st("localhost:4000")));
    assert!(!valid(&st("127.0.0.1:4000 ")));
    assert!(!valid(&st("127.0.0.1:-1")));
    assert!(!valid(&st("\u{661}.2.3.4:5")));
}

#[test]
fn segment_names_are_padded_with_zeros() {
    assert_eq!(segment_file_name(0), "sstable_00000000000000000000");
    assert_eq!(segment_file_name(7), "sstable_00000000000000000007");
    assert_eq!(segment_file_name(10), "sstable_00000000000000000010");
    assert_eq!(segment_file_name(1234567890), "sstable_00000000001234567890");
    assert_eq!(segment_file_name(usize::MAX), format!("sstable_{:020}", usize::MAX));
}

#[test]
fn segment_names_sort_as_their_numbers_do() {
    assert!(name_lt(&segment_file_name(2), &segment_file_name(10)));
    assert!(!name_lt(&segment_file_name(10), &segment_file_name(2)));
    assert!(name_lt(&segment_file_name(99), &segment_file_name(100)));
}

#[test]
fn names_compare_as_strings_do() {
    for (a, b) in [
        ("", ""),
        ("", "a"),
        ("a", ""),
        ("a", "b"),
        ("b", "a"),
        ("ab", "abc"),
        ("abc", "ab"),
        ("sstable_10", "sstable_2"),
        ("z", "\u{e9}"),
        ("\u{e9}", "\u{4e2d}"),
        ("same", "same"),
    ] {
        assert_eq!(name_lt(a, b), a < b);
    }
}

#[test]
fn segments_are_told_by_their_prefix() {
    assert!(is_segment_name("sstable_00000000000000000000"));
    assert!(is_segment_name("sstable"));
    assert!(is_segment_name("sstable_3.txt"));
    assert!(!is_segment_name("sstabl"));
    assert!(!is_segment_name("log.txt"));
    assert!(!is_segment_name("Sstable_1"));
    assert!(!is_segment_name(""));
    assert!(!is_segment_name("a_sstable"));
}

#[test]
fn listing_sorts_by_name_and_drops_other_files() {
    let found = vec![
        Segment { name: st("sstable_00000000000000000002"), data: vec![2] },
        Segment { name: st("log.txt"), data: vec![9] },
        Segment { name: st("sstable_00000000000000000000"), data: vec![0] },
        Segment { name: st("sstable_00000000000000000001"), data: vec![1] },
    ];
    let listing = list_segments(found);
    let data: Vec<u8> = listing.iter().map(|seg| seg.data[0]).collect();
    assert_eq!(data, vec![0, 1, 2]);
}

#[test]
fn listing_keeps_the_order_of_equal_names() {
    let found = vec![
        Segment { name: st("sstable_b"), data: vec![1] },
        Segment { name: st("sstable_a"), data: vec![2] },
        Segment { name: st("sstable_b"), data: vec![3] },
        Segment { name: st("sstable_a"), data: vec![4] },
    ];
    let listing = list_segments(found);
    let data: Vec<u8> = listing.iter().map(|seg| seg.data[0]).collect();
    assert_eq!(data, vec![2, 4, 1, 3]);
}

#[test]
fn a_command_is_encoded_as_a_json_object() {
    assert_eq!(
        Command::set(st("k"), st("v")).encode(),
        br#"{"action":"set","key":"k","value":"v"}"#.to_vec()
    );
    assert_eq!(
        Command::rm(st("k")).encode(),
        br#"{"action":"rm","key":"k","value":""}"#.to_vec()
    );
    assert_eq!(
        Command::set(st("q\"\\"), st("\n\u{1}")).encode(),
        br#"{"action":"set","key":"q\"\\","value":"\n\u0001"}"#.to_vec()
    );
}

#[test]
fn decoding_gives_the_command_and_the_offset_after_it() {
    let bytes = br#"{"action":"set","key":"k","value":"v"}  {"action":"rm","key":"k","value":""} "#;
    let (first, end) = decode_at(bytes, 0).unwrap().unwrap();
    assert_eq!((first.action.as_str(), first.key.as_str(), first.value.as_str()), ("set", "k", "v"));
    assert_eq!(end, 38);
    let (second, end) = decode_at(bytes, end).unwrap().unwrap();
    assert_eq!((second.action.as_str(), second.key.as_str(), second.value.as_str()), ("rm", "k", ""));
    assert_eq!(end, 76);
    assert!(decode_at(bytes, end).unwrap().is_none());
    assert!(decode_at(bytes, bytes.len()).unwrap().is_none());
    assert!(matches!(decode_at(bytes, 1), Err(KvsError::SerdeError(_))));
}

#[test]
fn encoding_and_decoding_agree() {
    for (key, value) in [("k", "v"), ("", ""), ("a b", "c\"d"), ("\u{0}", "\u{7f}\u{80}\u{10ffff}"), ("{}", "[]")] {
        let cmd = Command::set(st(key), st(value));
        let mut bytes = cmd.encode();
        let len = bytes.len();
        bytes.extend_from_slice(b"{\"trailing");
        let (back, end) = decode_at(&bytes, 0).unwrap().unwrap();
        assert_eq!((back.action.as_str(), back.key.as_str(), back.value.as_str()), ("set", key, value));
        assert_eq!(end, len);
    }
}

#[test]
fn command_predicates() {
    assert!(Command::set(st("k"), st("v")).is_set());
    assert!(!Command::set(st("k"), st("v")).is_rm());
    assert!(Command::rm(st("k")).is_rm());
    assert!(Command::rm(st("k")).touches(&st("k")));
    assert!(!Command::rm(st("k")).touches(&st("j")));
    let other = Command { action: st("noop"), key: st("k"), value: st("") };
    assert!(!other.touches(&st("k")));
    let copy = Command::set(st("k"), st("v")).duplicate();
    assert_eq!((copy.action.as_str(), copy.key.as_str(), copy.value.as_str()), ("set", "k", "v"));
}

#[test]
fn scanning_a_segment_finds_the_last_record_of_a_key() {
    let data = br#"{"action":"set","key":"k","value":"1"}{"action":"set","key":"j","value":"2"}{"action":"set","key":"k","value":"3"}"#;
    let found = scan_segment(data, &st("k")).unwrap().unwrap();
    assert_eq!(found.value, "3");
    assert!(scan_segment(data, &st("x")).unwrap().is_none());
    assert!(matches!(scan_segment(b"{\"action\"", &st("k")), Err(KvsError::SerdeError(_))));
    assert!(scan_segment(b"", &st("k")).unwrap().is_none());
}

#[test]
fn segments_are_searched_from_the_newest() {
    let segments = vec![
        Segment { name: st("sstable_0"), data: br#"{"action":"set","key":"k","value":"old"}"#.to_vec() },
        Segment { name: st("sstable_1"), data: br#"{"action":"set","key":"j","value":"x"}"#.to_vec() },
        Segment { name: st("sstable_2"), data: br#"{"action":"set","key":"k","value":"new"}"#.to_vec() },
    ];
    assert_eq!(find_in_segments(&segments, &st("k")).unwrap(), Some(st("new")));
    assert_eq!(find_in_segments(&segments, &st("j")).unwrap(), Some(st("x")));
    assert_eq!(find_in_segments(&segments, &st("none")).unwrap(), None);
    assert_eq!(find_in_segments(&Vec::new(), &st("k")).unwrap(), None);
}

#[test]
fn survivors_are_the_last_sets_in_log_order() {
    let cmds = vec![
        Command::set(st("a"), st("1")),
        Command::set(st("b"), st("2")),
        Command::set(st("a"), st("3")),
        Command::rm(st("b")),
        Command::set(st("c"), st("4")),
        Command { action: st("noop"), key: st("c"), value: st("5") },
        Command::rm(st("d")),
    ];
    let kept: Vec<(String, String)> =
        select_survivors(&cmds).into_iter().map(|c| (c.key, c.value)).collect();
    assert_eq!(kept, vec![(st("a"), st("3")), (st("c"), st("4"))]);
    assert!(select_survivors(&Vec::new()).is_empty());
}

#[test]
fn a_worker_runs_what_it_receives_and_leaves_when_the_queue_is_closed() {
    assert_eq!(worker_step(true), WorkerStep::Run);
    assert_eq!(worker_step(false), WorkerStep::Exit);
}

#[test]
fn a_worker_that_panics_is_replaced() {
    assert_eq!(on_worker_end(true), Succession::Replace);
    assert_eq!(on_worker_end(false), Succession::Vacate);
}

#[test]
fn the_default_address_is_used_where_none_is_given() {
    assert_eq!(resolve_address(None), Some(st("127.0.0.1:4000")));
    assert!(valid(&resolve_address(None).unwrap()));
    assert_eq!(resolve_address(Some(st("10.0.0.1:80"))), Some(st("10.0.0.1:80")));
    assert_eq!(resolve_address(Some(st("example.org:80"))), None);
    assert_eq!(resolve_address(Some(st(""))), None);
}
