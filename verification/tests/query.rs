use std::collections::HashMap;

use eigenlog::error::Error;
use eigenlog::id::{u128_to_key, Timestamp};
use eigenlog::identity::{App, Host};
use eigenlog::level::Level;
use eigenlog::pattern::Pattern;
use eigenlog::query::{
    bytes_le, contains_bytes, filter_with_option, plan_query, relevant_trees, run_query,
    tree_matches, QueryParams, QueryResponse, QueryScan,
};
use eigenlog::record::{reversed, submit_entries, LogBatch, LogData};
use eigenlog::tree_name::TreeName;

fn sample(message: &str) -> LogData {
    LogData {
        message: message.to_string(),
        code_module: Some("shop::cart".to_string()),
        code_file: Some("src/cart.rs".to_string()),
        code_line: Some(42),
        tags: HashMap::new(),
    }
}

fn nothing_asked() -> QueryParams {
    QueryParams {
        max_log_level: None,
        start_timestamp: None,
        end_timestamp: None,
        host_contains: None,
        app_contains: None,
        message_matches: None,
        message_not_matches: None,
        max_results: None,
    }
}

fn at(seconds: u64, low: u128) -> u128 {
    (((seconds * 1000) as u128) << 80) | low
}

fn entry(id: u128, message: &str) -> (Vec<u8>, LogData) {
    (u128_to_key(id), sample(message))
}

fn names(list: &[&str]) -> Vec<Vec<u8>> {
    list.iter().map(|n| n.as_bytes().to_vec()).collect()
}

fn messages(hits: &[QueryResponse]) -> Vec<String> {
    hits.iter().map(|h| h.data.message.clone()).collect()
}

#[test]
fn a_range_query_returns_what_lies_in_the_range() {
    let mut params = nothing_asked();
    params.start_timestamp = Timestamp::from_millis(3_000);
    params.end_timestamp = Timestamp::from_millis(12_000);
    let plan = plan_query(&names(&["h-a-info"]), params).unwrap();
    let entries = vec![
        entry(at(0, 1), "t0"),
        entry(at(5, 2), "t5"),
        entry(at(10, 3), "t10"),
        entry(at(15, 4), "t15"),
    ];
    let hits = run_query(plan, vec![entries]).unwrap();
    assert_eq!(messages(&hits), vec!["t5".to_string(), "t10".to_string()]);
    assert_eq!(hits[0].id, at(5, 2));
    assert_eq!(hits[1].id, at(10, 3));
    assert_eq!(hits[0].host.as_str(), "h");
    assert_eq!(hits[0].app.as_str(), "a");
    assert_eq!(hits[0].level, Level::Info);
    assert_eq!(hits[0].data.code_line, Some(42));
    assert_eq!(hits[0].data.code_module, Some("shop::cart".to_string()));
}

#[test]
fn the_bounds_of_a_range_are_whole_milliseconds() {
    let mut params = nothing_asked();
    params.start_timestamp = Timestamp::from_millis(5_000);
    params.end_timestamp = Timestamp::from_millis(5_000);
    let plan = plan_query(&names(&["h-a-info"]), params).unwrap();
    assert_eq!(plan.start, 5_000u128 << 80);
    assert_eq!(plan.end, (5_001u128 << 80) - 1);
    assert_eq!(plan.start_key(), u128_to_key(5_000u128 << 80));
    assert_eq!(plan.end_key(), u128_to_key((5_001u128 << 80) - 1));
    let entries = vec![
        entry((4_999u128 << 80) | ((1u128 << 80) - 1), "before"),
        entry(5_000u128 << 80, "first"),
        entry((5_000u128 << 80) | ((1u128 << 80) - 1), "last"),
        entry(5_001u128 << 80, "after"),
    ];
    let hits = run_query(plan, vec![entries]).unwrap();
    assert_eq!(messages(&hits), vec!["first".to_string(), "last".to_string()]);
}

#[test]
fn without_bounds_every_key_is_read() {
    let plan = plan_query(&names(&["h-a-info"]), nothing_asked()).unwrap();
    assert_eq!(plan.start, 0);
    assert_eq!(plan.end, u128::MAX);
    let hits = run_query(plan, vec![vec![entry(0, "zero"), entry(u128::MAX, "max")]]).unwrap();
    assert_eq!(messages(&hits), vec!["zero".to_string(), "max".to_string()]);
}

#[test]
fn bounds_that_cross_leave_nothing_to_read() {
    let mut params = nothing_asked();
    params.start_timestamp = Timestamp::from_millis(12_000);
    params.end_timestamp = Timestamp::from_millis(3_000);
    let run = QueryScan::new(plan_query(&names(&["h-a-info"]), params).unwrap());
    assert!(run.is_empty_range());
    let mut params = nothing_asked();
    params.start_timestamp = Timestamp::from_millis(3_000);
    params.end_timestamp = Timestamp::from_millis(3_000);
    let run = QueryScan::new(plan_query(&names(&["h-a-info"]), params).unwrap());
    assert!(!run.is_empty_range());
    let run = QueryScan::new(plan_query(&names(&["h-a-info"]), nothing_asked()).unwrap());
    assert!(!run.is_empty_range());
}

#[test]
fn a_range_that_ends_before_it_starts_is_empty() {
    let mut params = nothing_asked();
    params.start_timestamp = Timestamp::from_millis(12_000);
    params.end_timestamp = Timestamp::from_millis(3_000);
    let plan = plan_query(&names(&["h-a-info"]), params).unwrap();
    let entries = vec![entry(at(0, 1), "t0"), entry(at(5, 2), "t5"), entry(at(15, 4), "t15")];
    assert!(run_query(plan, vec![entries]).unwrap().is_empty());
}

#[test]
fn a_pattern_keeps_what_matches() {
    let mut params = nothing_asked();
    params.message_matches = Some("an".to_string());
    let plan = plan_query(&names(&["h-a-info"]), params).unwrap();
    let entries = vec![entry(1, "apple"), entry(2, "banana"), entry(3, "cherry")];
    let hits = run_query(plan, vec![entries]).unwrap();
    assert_eq!(messages(&hits), vec!["banana".to_string()]);
}

#[test]
fn a_second_pattern_drops_what_matches_it() {
    let mut params = nothing_asked();
    params.message_matches = Some("an".to_string());
    params.message_not_matches = Some("ban".to_string());
    let plan = plan_query(&names(&["h-a-info"]), params).unwrap();
    let entries = vec![entry(1, "apple"), entry(2, "banana"), entry(3, "cherry")];
    assert!(run_query(plan, vec![entries]).unwrap().is_empty());
}

#[test]
fn a_pattern_that_drops_works_alone() {
    let mut params = nothing_asked();
    params.message_not_matches = Some("^b".to_string());
    let plan = plan_query(&names(&["h-a-info"]), params).unwrap();
    let entries = vec![entry(1, "apple"), entry(2, "banana"), entry(3, "cherry")];
    let hits = run_query(plan, vec![entries]).unwrap();
    assert_eq!(messages(&hits), vec!["apple".to_string(), "cherry".to_string()]);
}

#[test]
fn a_malformed_pattern_fails_the_query() {
    let mut params = nothing_asked();
    params.message_matches = Some("foo(bar".to_string());
    assert!(matches!(plan_query(&names(&["h-a-info"]), params), Err(Error::Regex(_))));
    let mut params = nothing_asked();
    params.message_not_matches = Some("[".to_string());
    assert!(matches!(plan_query(&names(&["h-a-info"]), params), Err(Error::Regex(_))));
}

#[test]
fn a_malformed_pattern_is_told_in_the_words_of_the_compiler() {
    match Pattern::compile("foo(bar") {
        Err(e) => {
            let text = e.message();
            assert!(text.starts_with("Parsing regex: "));
            assert!(text.contains("unclosed group"));
            assert!(text.contains("foo(bar"));
        }
        Ok(_) => panic!("the pattern was accepted"),
    }
}

#[test]
fn a_compiled_pattern_matches_anywhere_in_the_text() {
    let p = Pattern::compile("b[aeiou]n").unwrap();
    assert!(p.is_match("banana"));
    assert!(p.is_match("a bin"));
    assert!(!p.is_match("apple"));
    assert!(!p.is_match("BAN"));
    let anchored = Pattern::compile("^[A-Za-z0-9]+$").unwrap();
    assert!(anchored.is_match("abc123"));
    assert!(!anchored.is_match("abc-123"));
    assert!(!anchored.is_match("abc\n"));
}

#[test]
fn the_default_severity_of_a_query_is_info() {
    let all = names(&["h-a-error", "h-a-warn", "h-a-info", "h-a-debug", "h-a-trace"]);
    let plan = plan_query(&all, nothing_asked()).unwrap();
    let levels: Vec<Level> = plan.trees.iter().map(|t| t.level()).collect();
    assert_eq!(levels, vec![Level::Error, Level::Warn, Level::Info]);
}

#[test]
fn a_query_reads_what_is_significant_enough() {
    let all = names(&["h-a-trace", "h-a-error", "h-a-debug", "h-a-warn", "h-a-info"]);
    let mut params = nothing_asked();
    params.max_log_level = Some(Level::Warn);
    let levels: Vec<Level> = relevant_trees(&all, &params).iter().map(|t| t.level()).collect();
    assert_eq!(levels, vec![Level::Error, Level::Warn]);
    params.max_log_level = Some(Level::Trace);
    assert_eq!(relevant_trees(&all, &params).len(), 5);
    params.max_log_level = Some(Level::Error);
    assert_eq!(relevant_trees(&all, &params).len(), 1);
}

#[test]
fn a_query_reads_the_hosts_and_apps_that_hold_its_text() {
    let all = names(&["web01-shop-info", "web02-shop-info", "db01-shop-info", "web01-bank-info"]);
    let mut params = nothing_asked();
    params.host_contains = Some(Host::parse("web").unwrap());
    let found: Vec<String> = relevant_trees(&all, &params).iter().map(|t| t.to_string()).collect();
    assert_eq!(found, vec!["web01-shop-info", "web02-shop-info", "web01-bank-info"]);
    params.app_contains = Some(App::parse("an").unwrap());
    let found: Vec<String> = relevant_trees(&all, &params).iter().map(|t| t.to_string()).collect();
    assert_eq!(found, vec!["web01-bank-info"]);
    params.host_contains = Some(Host::parse("WEB").unwrap());
    assert!(relevant_trees(&all, &params).is_empty());
}

#[test]
fn names_that_name_no_partition_are_passed_over() {
    let all = names(&["__sled__default", "foo-bar", "h-a-info", "", "h-a-b-info", "h-a-loud"]);
    let found: Vec<String> =
        relevant_trees(&all, &nothing_asked()).iter().map(|t| t.to_string()).collect();
    assert_eq!(found, vec!["h-a-info"]);
}

#[test]
fn a_partition_is_tested_against_a_query() {
    let t = TreeName::from_bytes(b"web01-shop-debug").unwrap();
    let mut params = nothing_asked();
    assert!(!tree_matches(&t, &params));
    params.max_log_level = Some(Level::Debug);
    assert!(tree_matches(&t, &params));
    params.app_contains = Some(App::parse("shop").unwrap());
    assert!(tree_matches(&t, &params));
    params.app_contains = Some(App::parse("shops").unwrap());
    assert!(!tree_matches(&t, &params));
}

#[test]
fn an_empty_query_returns_everything() {
    let all = names(&["h-a-error", "h-b-info"]);
    let plan = plan_query(&all, nothing_asked()).unwrap();
    let first = vec![entry(1, "e1"), entry(2, "e2")];
    let second = vec![entry(1, "i1"), entry(5, "i2"), entry(9, "i3")];
    let hits = run_query(plan, vec![first, second]).unwrap();
    assert_eq!(messages(&hits), vec!["e1", "e2", "i1", "i2", "i3"]);
    assert_eq!(hits[1].app.as_str(), "a");
    assert_eq!(hits[1].level, Level::Error);
    assert_eq!(hits[2].app.as_str(), "b");
    assert_eq!(hits[2].level, Level::Info);
}

#[test]
fn two_batches_come_back_entry_for_entry() {
    let mut first = LogBatch::new();
    first.insert(at(1, 1), sample("b1-1"));
    first.insert(at(1, 2), sample("b1-2"));
    let mut second = LogBatch::new();
    second.insert(at(2, 1), sample("b2-1"));
    second.insert(at(2, 2), sample("b2-2"));
    second.insert(at(2, 3), sample("b2-3"));
    let mut partition = submit_entries(first);
    partition.extend(submit_entries(second));
    let plan = plan_query(&names(&["h-a-info"]), nothing_asked()).unwrap();
    let hits = run_query(plan, vec![partition]).unwrap();
    assert_eq!(hits.len(), 2 + 3);
    assert_eq!(messages(&hits), vec!["b1-1", "b1-2", "b2-1", "b2-2", "b2-3"]);
}

#[test]
fn the_limit_is_passed_by_one_at_most() {
    let all = names(&["h-a-error", "h-a-warn", "h-a-info"]);
    for max in [0usize, 1, 2, 3, 5, 7] {
        let mut params = nothing_asked();
        params.max_results = Some(max);
        let plan = plan_query(&all, params).unwrap();
        let parts = vec![
            vec![entry(1, "e1"), entry(2, "e2"), entry(3, "e3")],
            vec![entry(1, "w1"), entry(2, "w2"), entry(3, "w3")],
            vec![entry(1, "i1"), entry(2, "i2"), entry(3, "i3")],
        ];
        let hits = run_query(plan, parts).unwrap();
        assert_eq!(hits.len(), std::cmp::min(max + 1, 9));
        assert!(hits.len() <= max + 3);
    }
}

#[test]
fn the_limit_counts_results_and_not_entries() {
    let mut params = nothing_asked();
    params.max_results = Some(1);
    params.message_matches = Some("keep".to_string());
    let plan = plan_query(&names(&["h-a-info"]), params).unwrap();
    let entries = vec![
        entry(1, "drop"),
        entry(2, "drop"),
        entry(3, "keep 1"),
        entry(4, "drop"),
        entry(5, "keep 2"),
        entry(6, "keep 3"),
    ];
    let hits = run_query(plan, vec![entries]).unwrap();
    assert_eq!(messages(&hits), vec!["keep 1", "keep 2"]);
}

#[test]
fn a_key_that_is_no_identifier_fails_the_query() {
    let plan = plan_query(&names(&["h-a-info"]), nothing_asked()).unwrap();
    let entries = vec![entry(1, "fine"), (vec![1u8, 2, 3], sample("short")), entry(2, "late")];
    match run_query(plan, vec![entries]) {
        Err(Error::InvalidLengthBytesForUlid(n)) => assert_eq!(n, 3),
        _ => panic!("the key was accepted"),
    }
}

#[test]
fn a_bad_key_after_the_limit_is_never_read() {
    let mut params = nothing_asked();
    params.max_results = Some(0);
    let plan = plan_query(&names(&["h-a-info"]), params).unwrap();
    let entries = vec![entry(1, "fine"), (vec![1u8, 2, 3], sample("short"))];
    let hits = run_query(plan, vec![entries]).unwrap();
    assert_eq!(messages(&hits), vec!["fine"]);
}

#[test]
fn a_bad_key_of_a_dropped_entry_does_no_harm() {
    let mut params = nothing_asked();
    params.message_matches = Some("fine".to_string());
    let plan = plan_query(&names(&["h-a-info"]), params).unwrap();
    let entries = vec![(vec![1u8, 2, 3], sample("short")), entry(1, "fine")];
    let hits = run_query(plan, vec![entries]).unwrap();
    assert_eq!(messages(&hits), vec!["fine"]);
}

#[test]
fn a_query_goes_entry_by_entry() {
    let mut params = nothing_asked();
    params.max_results = Some(1);
    params.message_not_matches = Some("secret".to_string());
    let plan = plan_query(&names(&["h-a-info"]), params).unwrap();
    let mut run = QueryScan::new(plan);
    let tree = run.trees()[0].clone();
    assert_eq!(run.start_key(), vec![0u8; 16]);
    assert_eq!(run.end_key(), vec![0xffu8; 16]);
    assert!(run.wants_more());
    assert!(run.passes("hello"));
    assert!(!run.passes("a secret"));
    assert!(!run.offer(&tree, &u128_to_key(1), sample("a secret")).unwrap());
    assert!(run.offer(&tree, &u128_to_key(2), sample("one")).unwrap());
    assert!(run.wants_more());
    assert!(run.offer(&tree, &u128_to_key(3), sample("two")).unwrap());
    assert!(!run.wants_more());
    assert!(matches!(
        run.offer(&tree, &[0u8; 17], sample("three")),
        Err(Error::InvalidLengthBytesForUlid(17))
    ));
    let hits = run.finish();
    assert_eq!(messages(&hits), vec!["one", "two"]);
    assert_eq!(hits[0].id, 2);
}

#[test]
fn a_partition_is_read_into_a_run() {
    let mut params = nothing_asked();
    params.start_timestamp = Timestamp::from_millis(1);
    let plan = plan_query(&names(&["h-a-info"]), params).unwrap();
    let mut run = QueryScan::new(plan);
    let tree = run.trees()[0].clone();
    run.scan_entries(&tree, vec![entry(5, "too early"), entry(1u128 << 80, "in time")]).unwrap();
    run.scan_entries(&tree, vec![entry(2u128 << 80, "later")]).unwrap();
    assert_eq!(messages(&run.finish()), vec!["in time", "later"]);
}

#[test]
fn a_filter_passes_what_holds_its_text() {
    assert!(filter_with_option("abcdef", &None));
    assert!(filter_with_option("abcdef", &Some("")));
    assert!(filter_with_option("abcdef", &Some("abc")));
    assert!(filter_with_option("abcdef", &Some("cde")));
    assert!(filter_with_option("abcdef", &Some("f")));
    assert!(filter_with_option("abcdef", &Some("abcdef")));
    assert!(!filter_with_option("abcdef", &Some("abcdefg")));
    assert!(!filter_with_option("abcdef", &Some("ace")));
    assert!(!filter_with_option("abcdef", &Some("ABC")));
    assert!(!filter_with_option("", &Some("a")));
    assert!(filter_with_option("", &Some("")));
}

#[test]
fn bytes_are_found_within_bytes() {
    assert!(contains_bytes(b"aab", b"ab"));
    assert!(contains_bytes(b"aaab", b"aab"));
    assert!(!contains_bytes(b"aaa", b"aab"));
    assert!(contains_bytes(b"", b""));
    assert!(!contains_bytes(b"", b"x"));
}

#[test]
fn byte_strings_are_ordered_as_a_store_orders_its_keys() {
    assert!(bytes_le(b"", b""));
    assert!(bytes_le(b"", b"a"));
    assert!(!bytes_le(b"a", b""));
    assert!(bytes_le(b"a", b"a"));
    assert!(bytes_le(b"a", b"ab"));
    assert!(!bytes_le(b"ab", b"a"));
    assert!(bytes_le(b"ab", b"b"));
    assert!(!bytes_le(b"b", b"ab"));
    assert!(bytes_le(&[0x00, 0xff], &[0x01, 0x00]));
    assert!(!bytes_le(&[0x80], &[0x7f, 0xff]));
}

#[test]
fn items_are_turned_round() {
    assert_eq!(reversed(vec![1, 2, 3]), vec![3, 2, 1]);
    assert_eq!(reversed(Vec::<u8>::new()), Vec::<u8>::new());
    assert_eq!(reversed(vec!["x"]), vec!["x"]);
}

#[test]
fn a_record_comes_back_as_it_was_written() {
    let mut tags = HashMap::new();
    tags.insert("target".to_string(), "shop::cart".to_string());
    tags.insert("user".to_string(), "u-17".to_string());
    let written = LogData {
        message: "total is 3 \u{20ac}".to_string(),
        code_module: Some("shop::cart".to_string()),
        code_file: None,
        code_line: Some(7),
        tags: tags.clone(),
    };
    let mut batch = LogBatch::new();
    batch.insert(at(1, 9), written.clone());
    batch.insert(at(1, 8), sample("other"));
    let plan = plan_query(&names(&["h-a-info"]), nothing_asked()).unwrap();
    let hits = run_query(plan, vec![submit_entries(batch)]).unwrap();
    assert_eq!(hits.len(), 2);
    assert_eq!(hits[0].id, at(1, 8));
    assert_eq!(hits[1].id, at(1, 9));
    assert_eq!(hits[1].data.message, written.message);
    assert_eq!(hits[1].data.code_module, written.code_module);
    assert_eq!(hits[1].data.code_file, written.code_file);
    assert_eq!(hits[1].data.code_line, written.code_line);
    assert_eq!(hits[1].data.tags, tags);
}

#[test]
fn the_keys_of_a_batch_rise_with_its_identifiers() {
    let mut batch = LogBatch::new();
    for id in [at(3, 0), at(1, 5), at(2, 0), at(1, 4), 0, u128::MAX] {
        batch.insert(id, sample("x"));
    }
    let entries = submit_entries(batch);
    assert_eq!(entries.len(), 6);
    for pair in entries.windows(2) {
        assert!(pair[0].0 < pair[1].0);
        assert_eq!(pair[0].0.len(), 16);
    }
    assert_eq!(entries[0].0, vec![0u8; 16]);
    assert_eq!(entries[5].0, vec![0xffu8; 16]);
}

#[test]
fn a_partition_holds_one_record_under_each_identifier() {
    // what a store keeps of two batches is what one batch keeps of their records
    let mut partition = LogBatch::new();
    for (id, message) in [(at(1, 1), "b1-1"), (at(1, 2), "b1-2")] {
        partition.insert(id, sample(message));
    }
    for (id, message) in [(at(1, 2), "b2-again"), (at(2, 1), "b2-new")] {
        partition.insert(id, sample(message));
    }
    let plan = plan_query(&names(&["h-a-info"]), nothing_asked()).unwrap();
    let hits = run_query(plan, vec![submit_entries(partition)]).unwrap();
    // the identifier that both batches hold is stored once, with the later record
    assert_eq!(messages(&hits), vec!["b1-1", "b2-again", "b2-new"]);
}

#[test]
fn a_record_comes_back_once_whatever_else_is_stored() {
    // a store of three partitions with records of their own
    let all = names(&["web01-shop-error", "web01-shop-info", "db01-core-info"]);
    let mut errors = LogBatch::new();
    errors.insert(at(1, 1), sample("e1"));
    let mut infos = LogBatch::new();
    infos.insert(at(1, 7), sample("i1"));
    infos.insert(at(3, 7), sample("i3"));
    let mut others = LogBatch::new();
    // another partition holds a record under the same identifier
    others.insert(at(2, 5), sample("not this one"));
    // the record is put into the second partition
    let written = sample("this one");
    infos.insert(at(2, 5), written.clone());
    let mut params = nothing_asked();
    params.start_timestamp = Timestamp::from_millis(2_000);
    params.end_timestamp = Timestamp::from_millis(2_000);
    let plan = plan_query(&all, params).unwrap();
    let parts = vec![submit_entries(errors), submit_entries(infos), submit_entries(others)];
    let hits = run_query(plan, parts).unwrap();
    let found: Vec<&QueryResponse> = hits
        .iter()
        .filter(|h| {
            h.host.as_str() == "web01"
                && h.app.as_str() == "shop"
                && h.level == Level::Info
                && h.id == at(2, 5)
        })
        .collect();
    assert_eq!(found.len(), 1);
    assert_eq!(found[0].data.message, written.message);
    assert_eq!(found[0].data.code_module, written.code_module);
    assert_eq!(found[0].data.code_file, written.code_file);
    assert_eq!(found[0].data.code_line, written.code_line);
    assert_eq!(found[0].data.tags, written.tags);
    assert_eq!(messages(&hits), vec!["this one", "not this one"]);
}
