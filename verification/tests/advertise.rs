use herdr_services::advertise::{count, parse_url, rank, rank_from, url_from, Advertisements};

#[test]
fn parse_url_extracts_port_and_full_url_from_a_log_line() {
    let line = "Local:   http://localhost:5173/app (ready in 120ms)";
    let (port, url) = parse_url(line).expect("match");
    assert_eq!(port, 5173);
    assert_eq!(url, "http://localhost:5173/app");
}

#[test]
fn parse_url_stops_before_a_wrapping_paren() {
    let line = "Serving HTTP on 127.0.0.1 port 52725 (http://127.0.0.1:52725/) ...";
    let (port, url) = parse_url(line).expect("match");
    assert_eq!(port, 52725);
    assert_eq!(url, "http://127.0.0.1:52725/");
}

#[test]
fn parse_url_ignores_lines_without_a_recognised_host() {
    assert_eq!(parse_url("see https://example.com:5173 for docs"), None);
    assert_eq!(parse_url("just some text"), None);
}

#[test]
fn higher_ranked_url_beats_a_lower_ranked_one_for_the_same_port() {
    let mut ads = Advertisements::default();
    assert!(ads.record(
        "w1".into(),
        3000,
        "http://localhost:3000".into(),
        "p1".into()
    ));
    assert!(ads.record(
        "w1".into(),
        3000,
        "https://app.test:3000".into(),
        "p1".into()
    ));
    assert_eq!(
        ads.get("w1", 3000).as_deref(),
        Some("https://app.test:3000")
    );
    // A lower-ranked match never displaces it.
    assert!(!ads.record(
        "w1".into(),
        3000,
        "http://localhost:3000".into(),
        "p2".into()
    ));
    assert_eq!(
        ads.get("w1", 3000).as_deref(),
        Some("https://app.test:3000")
    );
}

#[test]
fn forget_clears_a_single_port_without_touching_others() {
    let mut ads = Advertisements::default();
    ads.record(
        "w1".into(),
        3000,
        "http://localhost:3000".into(),
        "p1".into(),
    );
    ads.record(
        "w1".into(),
        4000,
        "http://localhost:4000".into(),
        "p1".into(),
    );
    ads.forget("w1", 3000);
    assert_eq!(ads.get("w1", 3000), None);
    assert_eq!(
        ads.get("w1", 4000).as_deref(),
        Some("http://localhost:4000")
    );
}

#[test]
fn retain_panes_drops_advertisements_from_closed_panes() {
    let mut ads = Advertisements::default();
    ads.record(
        "w1".into(),
        3000,
        "http://localhost:3000".into(),
        "p1".into(),
    );
    let alive = vec![("p2".to_string(), "w1".to_string())];
    ads.retain_panes(&alive);
    assert_eq!(ads.get("w1", 3000), None);
}

#[test]
fn retain_panes_keeps_what_an_open_pane_said() {
    let mut ads = Advertisements::default();
    ads.record("w1".into(), 3000, "http://localhost:3000".into(), "p1".into());
    ads.record("w2".into(), 3000, "http://localhost:3000".into(), "p2".into());
    ads.retain_panes(&vec![("p1".to_string(), "w1".to_string())]);
    assert_eq!(ads.get("w1", 3000).as_deref(), Some("http://localhost:3000"));
    assert_eq!(ads.get("w2", 3000), None);
}

#[test]
fn ranks_prefer_https_and_named_hosts() {
    assert_eq!(rank("http://localhost:3000"), 0);
    assert_eq!(rank("http://app.test:3000"), 1);
    assert_eq!(rank("https://localhost:3000"), 2);
    assert_eq!(rank("https://app.test:3000"), 3);
    assert_eq!(rank("https://[::1]:3000"), 2);
    assert_eq!(rank("not a url"), 0);
}

#[test]
fn a_url_is_turned_away_by_a_higher_rank_or_by_itself() {
    let mut ads = Advertisements::default();
    assert!(ads.record_ranked("w1".into(), 3000, "a".into(), "p1".into(), 1));
    assert!(!ads.record_ranked("w1".into(), 3000, "a".into(), "p1".into(), 3));
    assert!(!ads.record_ranked("w1".into(), 3000, "b".into(), "p1".into(), 0));
    assert_eq!(ads.get("w1", 3000).as_deref(), Some("a"));
    assert!(ads.record_ranked("w1".into(), 3000, "c".into(), "p1".into(), 1));
    assert_eq!(ads.get("w1", 3000).as_deref(), Some("c"));
}

#[test]
fn a_match_without_a_port_is_no_url() {
    assert_eq!(url_from(&None), None);
    assert_eq!(url_from(&Some(vec![Some("http://localhost".to_string())])), None);
    let groups = vec![
        Some("http://localhost:70000".to_string()),
        Some("http".to_string()),
        Some("localhost".to_string()),
        Some("70000".to_string()),
        None,
    ];
    assert_eq!(url_from(&Some(groups)), None);
}

#[test]
fn the_rank_of_a_url_depends_on_its_host() {
    let groups = |host: &str| {
        Some(vec![
            Some("x".to_string()),
            Some("https".to_string()),
            Some(host.to_string()),
            Some("3000".to_string()),
            None,
        ])
    };
    assert!(rank_from("https://app.test:3000", &groups("app.test"))
        > rank_from("https://localhost:3000", &groups("localhost")));
    assert_eq!(
        rank_from("https://localhost:3000", &groups("localhost")),
        rank_from("https://[::1]:3000", &groups("[::1]"))
    );
}

#[test]
fn host_names_count_only_where_they_are_preferred() {
    let counts = |prefer: bool| -> Vec<u8> { (0..4).map(|r| count(r, prefer)).collect() };
    assert_eq!(counts(true), vec![0, 1, 2, 3]);
    assert_eq!(counts(false), vec![0, 0, 2, 2]);

    let named = "http://app.test:3000";
    let local = "http://localhost:3000";
    let mut ads = Advertisements::default();
    assert!(ads.record_preferring("w1".into(), 3000, named.into(), "p1".into(), false));
    assert!(ads.record_preferring("w1".into(), 3000, local.into(), "p1".into(), false));
    assert_eq!(ads.get("w1", 3000).as_deref(), Some(local));

    let mut ads = Advertisements::default();
    assert!(ads.record_preferring("w1".into(), 3000, named.into(), "p1".into(), true));
    assert!(!ads.record_preferring("w1".into(), 3000, local.into(), "p1".into(), true));
    assert_eq!(ads.get("w1", 3000).as_deref(), Some(named));
}
