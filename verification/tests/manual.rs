use herdr_services::manual::{parse_target, TargetError};

#[test]
fn bare_port_leaves_the_url_for_the_daemon_to_infer() {
    assert_eq!(parse_target(":3000").unwrap(), (3000, None));
}

#[test]
fn a_full_url_keeps_itself_and_yields_its_port() {
    assert_eq!(
        parse_target("http://localhost:6006").unwrap(),
        (6006, Some("http://localhost:6006".to_string()))
    );
    assert_eq!(
        parse_target("https://app.example.com:8443/dashboard").unwrap(),
        (
            8443,
            Some("https://app.example.com:8443/dashboard".to_string())
        )
    );
}

#[test]
fn rejects_garbage_and_missing_ports() {
    assert!(parse_target("not a target").is_err());
    assert!(parse_target("http://localhost").is_err());
    assert!(parse_target(":not-a-number").is_err());
}

#[test]
fn each_bad_target_has_its_reason() {
    assert_eq!(parse_target(":70000"), Err(TargetError::NotAPort));
    assert_eq!(parse_target("3000"), Err(TargetError::NotATarget));
    assert_eq!(parse_target("http://localhost/x:1"), Err(TargetError::NoPort));
    assert_eq!(parse_target("http://localhost:x/"), Err(TargetError::BadPort));
    assert_eq!(TargetError::NotAPort.message(":x"), "`:x` is not `:PORT`");
    assert_eq!(
        TargetError::NotATarget.message("x"),
        "`x` is not `:PORT` or a `scheme://host:port` URL"
    );
    assert_eq!(TargetError::NoPort.message("a://b"), "`a://b` has no port");
    assert_eq!(
        TargetError::BadPort.message("a://b:c"),
        "`a://b:c` has a non-numeric port"
    );
}

#[test]
fn the_ends_of_the_port_range_are_targets() {
    assert_eq!(parse_target(":0").unwrap(), (0, None));
    assert_eq!(parse_target(":65535").unwrap(), (65535, None));
}
