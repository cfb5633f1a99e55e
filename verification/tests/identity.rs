use eigenlog::identity::{App, Host};

#[test]
fn test_host() {
    assert!("abc123".parse::<Host>().is_ok());
    assert!("abc-123".parse::<Host>().is_err());
}

#[test]
fn test_app() {
    assert!("abc123".parse::<App>().is_ok());
    assert!("abc-123".parse::<App>().is_err());
}

#[test]
fn host_keeps_its_text_and_its_case() {
    let host = Host::parse("WebServer01").unwrap();
    assert_eq!(host.as_str(), "WebServer01");
    assert_eq!(host.to_text(), "WebServer01".to_string());
    assert_eq!(host.clone().as_str(), "WebServer01");
}

#[test]
fn labels_are_one_or_more_digits_and_ascii_letters() {
    for good in ["a", "Z", "0", "abcXYZ019", "9a9"] {
        assert!(Host::parse(good).is_ok());
        assert!(App::parse(good).is_ok());
    }
    for bad in ["", " ", "a b", "a_b", "a.b", "a/b", "abc\n", "\nabc", "é", "aé", "日本", "a-"] {
        assert!(Host::parse(bad).is_err());
        assert!(App::parse(bad).is_err());
    }
}

#[test]
fn a_refused_host_is_told_why() {
    let e = Host::parse("abc-123").unwrap_err();
    assert_eq!(
        e.message(),
        "host parse error: Host name `abc-123` contains characters outisde the range of `[A-Za-z0-9]`"
    );
}

#[test]
fn a_refused_app_is_told_why() {
    let e = App::parse("my app").unwrap_err();
    assert_eq!(
        e.message(),
        "app parse error: App name `my app` contains characters outisde the range of `[A-Za-z0-9]`"
    );
}

#[test]
fn labels_are_read_from_bytes_as_from_text() {
    assert_eq!(Host::from_bytes(b"abc123").unwrap().as_str(), "abc123");
    assert_eq!(App::from_bytes(b"Q7").unwrap().as_str(), "Q7");
    assert!(Host::from_bytes(b"").is_none());
    assert!(Host::from_bytes(b"abc-123").is_none());
    assert!(App::from_bytes(&[0x61, 0xff]).is_none());
    assert!(App::from_bytes(&[0xc3, 0xa9]).is_none());
}
