use eigenlog::error::Error;
use eigenlog::identity::{App, Host};
use eigenlog::level::Level;
use eigenlog::tree_name::{find_dash, flush_trees, TreeName};

fn refused(bytes: &[u8]) -> bool {
    match TreeName::from_bytes(bytes) {
        Err(Error::ParseTreeNameFromBytes(b)) => b == bytes,
        _ => false,
    }
}

#[test]
fn a_name_is_host_app_and_severity() {
    let name = TreeName::from_bytes(b"web01-billing-info").unwrap();
    assert_eq!(name.host().as_str(), "web01");
    assert_eq!(name.app().as_str(), "billing");
    assert_eq!(name.level(), Level::Info);
}

#[test]
fn the_severity_of_a_name_is_read_in_any_case() {
    assert_eq!(TreeName::from_bytes(b"h-a-ERROR").unwrap().level(), Level::Error);
    assert_eq!(TreeName::from_bytes(b"h-a-Warn").unwrap().level(), Level::Warn);
    assert_eq!(TreeName::from_bytes(b"h-a-dEbUg").unwrap().level(), Level::Debug);
    assert_eq!(TreeName::from_bytes(b"h-a-trace").unwrap().level(), Level::Trace);
}

#[test]
fn the_case_of_host_and_app_counts() {
    let name = TreeName::from_bytes(b"Web-App-info").unwrap();
    assert_eq!(name.host().as_str(), "Web");
    assert_eq!(name.app().as_str(), "App");
}

#[test]
fn a_name_needs_exactly_two_separators() {
    assert!(refused(b""));
    assert!(refused(b"foo"));
    assert!(refused(b"foo-bar"));
    assert!(refused(b"a-b-c-info"));
    assert!(refused(b"a-b-info-"));
    assert!(refused(b"--"));
    assert!(refused(b"---"));
}

#[test]
fn each_part_of_a_name_has_to_parse() {
    assert!(refused(b"-app-info"));
    assert!(refused(b"host--info"));
    assert!(refused(b"host-app-"));
    assert!(refused(b"ho st-app-info"));
    assert!(refused(b"host-a_p-info"));
    assert!(refused(b"host-app-information"));
    assert!(refused(b"host-app-inf"));
    assert!(refused(b"host-app-2"));
    assert!(refused(&[0x68, 0xff, 0x2d, 0x61, 0x2d, 0x69, 0x6e, 0x66, 0x6f]));
    assert!(refused(b"__sled__default"));
}

#[test]
fn a_partition_is_named_with_its_severity_in_lowercase() {
    let host = Host::parse("Web01").unwrap();
    let app = App::parse("Billing").unwrap();
    assert_eq!(Level::Error.get_tree_name(&host, &app), "Web01-Billing-error");
    assert_eq!(Level::Warn.get_tree_name(&host, &app), "Web01-Billing-warn");
    assert_eq!(Level::Info.get_tree_name(&host, &app), "Web01-Billing-info");
    assert_eq!(Level::Debug.get_tree_name(&host, &app), "Web01-Billing-debug");
    assert_eq!(Level::Trace.get_tree_name(&host, &app), "Web01-Billing-trace");
    assert_eq!(TreeName::new(host, app, Level::Debug).to_string(), "Web01-Billing-debug");
}

#[test]
fn a_name_reads_back_as_its_partition() {
    for h in ["a", "Host9", "0"] {
        for a in ["b", "App", "77"] {
            for l in Level::all() {
                let host = Host::parse(h).unwrap();
                let app = App::parse(a).unwrap();
                let text = TreeName::new(host, app, l).to_string();
                let back = TreeName::from_bytes(text.as_bytes()).unwrap();
                assert_eq!(back.host().as_str(), h);
                assert_eq!(back.app().as_str(), a);
                assert_eq!(back.level(), l);
                assert_eq!(back.clone().to_string(), text);
            }
        }
    }
}

#[test]
fn the_first_separator_is_found_from_a_place_on() {
    assert_eq!(find_dash(b"ab-cd-e", 0), 2);
    assert_eq!(find_dash(b"ab-cd-e", 2), 2);
    assert_eq!(find_dash(b"ab-cd-e", 3), 5);
    assert_eq!(find_dash(b"ab-cd-e", 6), 7);
    assert_eq!(find_dash(b"ab-cd-e", 7), 7);
    assert_eq!(find_dash(b"", 0), 0);
}

#[test]
fn a_flush_reaches_the_partition_of_each_severity() {
    let host = Host::parse("h1").unwrap();
    let app = App::parse("a1").unwrap();
    assert_eq!(
        flush_trees(&host, &app),
        vec![
            "h1-a1-trace".to_string(),
            "h1-a1-debug".to_string(),
            "h1-a1-info".to_string(),
            "h1-a1-warn".to_string(),
            "h1-a1-error".to_string(),
        ]
    );
}
