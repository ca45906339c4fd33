use herdr_services::attribute::Attribution;
use herdr_services::state::{Liveness, Observed, Service, Source, State};

fn observed(ws: &str, port: u16, pid: u32) -> Observed {
    Observed {
        workspace_id: ws.into(),
        port,
        host_hint: "*".into(),
        pid: Some(pid),
        container: None,
        process_name: "puma".into(),
        argv_summary: "puma".into(),
        cwd: None,
        url: format!("http://localhost:{port}"),
        advertised: false,
        attribution: Attribution::Cwd,
    }
}

#[test]
fn observed_advertised_url_is_adopted_and_persists_until_pid_changes() {
    let mut state = State::default();
    let mut o = observed("w1", 3000, 10);
    o.advertised = true;
    o.url = "https://app.test:3000/".into();
    state.apply_scan(vec![o], 1);
    assert_eq!(state.services[0].source, Source::Advertised);
    assert_eq!(state.services[0].url, "https://app.test:3000/");
    // Same pid, no fresh advertisement this scan: the advertised url survives.
    state.apply_scan(vec![observed("w1", 3000, 10)], 2);
    assert_eq!(state.services[0].source, Source::Advertised);
    assert_eq!(state.services[0].url, "https://app.test:3000/");
    // New pid: the advertised url is invalidated in favour of the inferred one.
    state.apply_scan(vec![observed("w1", 3000, 99)], 3);
    assert_eq!(state.services[0].source, Source::Detected);
    assert_eq!(state.services[0].url, "http://localhost:3000");
}

#[test]
fn detected_service_survives_one_missed_scan_then_disappears() {
    let mut state = State::default();
    state.apply_scan(vec![observed("w1", 3000, 10)], 1);
    assert_eq!(state.services.len(), 1);
    state.apply_scan(vec![], 2);
    assert_eq!(state.services.len(), 1, "grace for restarts");
    assert_eq!(state.services[0].pid, None);
    state.apply_scan(vec![], 3);
    assert!(state.services.is_empty());
}

#[test]
fn reappearing_service_keeps_first_seen_and_resets_misses() {
    let mut state = State::default();
    state.apply_scan(vec![observed("w1", 3000, 10)], 1);
    state.apply_scan(vec![], 2);
    state.apply_scan(vec![observed("w1", 3000, 11)], 3);
    let s = &state.services[0];
    assert_eq!(
        (s.first_seen_ms, s.last_seen_ms, s.pid, s.missed_scans),
        (1, 3, Some(11), 0)
    );
}

#[test]
fn manual_services_never_disappear_but_lose_pid() {
    let mut state = State::default();
    state.services.push(Service {
        workspace_id: "w1".into(),
        port: 6006,
        host_hint: "*".into(),
        pid: None,
        container: None,
        process_name: String::new(),
        argv_summary: String::new(),
        cwd: None,
        url: "http://localhost:6006".into(),
        label: Some("Storybook".into()),
        source: Source::Manual,
        attribution: Attribution::Manual,
        first_seen_ms: 0,
        last_seen_ms: 0,
        liveness: Liveness::Unknown,
        missed_scans: 0,
        pinned_url: None,
    });
    state.apply_scan(vec![observed("w1", 6006, 42)], 1);
    assert_eq!(state.services[0].pid, Some(42));
    assert_eq!(
        state.services[0].label.as_deref(),
        Some("Storybook"),
        "manual label wins"
    );
    for t in 2..10 {
        state.apply_scan(vec![], t);
    }
    assert_eq!(state.services.len(), 1);
    assert_eq!(
        state.services[0].pid,
        Some(42),
        "manual entries keep the last known pid"
    );
}

#[test]
fn a_manual_service_outlives_an_advertised_url() {
    let mut state = State::default();
    state.upsert_manual(
        "w1".into(),
        "Storybook".into(),
        6006,
        "http://localhost:6006".into(),
        1,
    );
    let mut o = observed("w1", 6006, 42);
    o.url = "https://a.test:6006".into();
    o.advertised = true;
    state.apply_scan(vec![o], 2);
    assert_eq!(state.services[0].source, Source::Manual);
    assert_eq!(state.services[0].url, "https://a.test:6006");
    state.apply_scan(vec![observed("w1", 6006, 42)], 2);
    assert_eq!(state.services[0].url, "https://a.test:6006");
    state.apply_scan(vec![observed("w1", 6006, 43)], 2);
    assert_eq!(state.services[0].url, "http://localhost:6006");
    assert_eq!(state.services[0].pinned_url, None);
    for t in 3..9 {
        state.apply_scan(vec![], t);
    }
    assert_eq!(state.services.len(), 1);
    assert_eq!(state.services[0].label.as_deref(), Some("Storybook"));
    assert_eq!(state.services[0].source, Source::Manual);
}

#[test]
fn a_place_observed_twice_keeps_one_row() {
    let mut state = State::default();
    state.apply_scan(vec![observed("w1", 3000, 1)], 1);
    state.apply_scan(vec![observed("w1", 3000, 1), observed("w1", 3000, 2)], 2);
    assert_eq!(state.services.len(), 1);
    assert_eq!(state.services[0].pid, Some(2));
    assert_eq!(state.services[0].first_seen_ms, 1);
}

#[test]
fn upsert_manual_creates_a_standalone_service_for_an_unseen_port() {
    let mut state = State::default();
    state.upsert_manual(
        "w1".into(),
        "Storybook".into(),
        6006,
        "http://localhost:6006".into(),
        1,
    );
    assert_eq!(state.services.len(), 1);
    let s = &state.services[0];
    assert_eq!(
        (s.source, s.label.as_deref()),
        (Source::Manual, Some("Storybook"))
    );
    // Re-adding the same label just moves it.
    state.upsert_manual(
        "w1".into(),
        "Storybook".into(),
        7007,
        "http://localhost:7007".into(),
        2,
    );
    assert_eq!(state.services.len(), 1);
    assert_eq!(state.services[0].port, 7007);
}

#[test]
fn upsert_manual_attaches_a_label_to_an_already_detected_service() {
    let mut state = State::default();
    state.apply_scan(vec![observed("w1", 3000, 10)], 1);
    state.upsert_manual(
        "w1".into(),
        "API".into(),
        3000,
        "http://localhost:3000".into(),
        2,
    );
    assert_eq!(state.services.len(), 1, "merges into the existing row");
    assert_eq!(
        state.services[0].source,
        Source::Detected,
        "stays detected, not manual"
    );
    assert_eq!(state.services[0].label.as_deref(), Some("API"));
    // The process disappears like any other detected service, label included.
    state.apply_scan(vec![], 3);
    state.apply_scan(vec![], 4);
    assert!(state.services.is_empty());
}

#[test]
fn remove_manual_deletes_a_standalone_entry_but_only_unlabels_a_detected_one() {
    let mut state = State::default();
    state.apply_scan(vec![observed("w1", 3000, 10)], 1);
    state.upsert_manual(
        "w1".into(),
        "API".into(),
        3000,
        "http://localhost:3000".into(),
        2,
    );
    state.upsert_manual(
        "w1".into(),
        "Storybook".into(),
        6006,
        "http://localhost:6006".into(),
        2,
    );
    assert!(state.remove_manual("Storybook"));
    assert_eq!(state.services.len(), 1, "standalone entry is gone");
    assert!(state.remove_manual("API"));
    assert_eq!(
        state.services.len(),
        1,
        "detected service stays, just unlabelled"
    );
    assert_eq!(state.services[0].label, None);
    assert!(!state.remove_manual("API"), "already removed");
}

#[test]
fn advertised_url_is_invalidated_when_pid_changes() {
    let mut state = State::default();
    state.apply_scan(vec![observed("w1", 3000, 10)], 1);
    state.services[0].source = Source::Advertised;
    state.services[0].url = "https://app.test:3000/".into();
    state.apply_scan(vec![observed("w1", 3000, 10)], 2);
    assert_eq!(
        state.services[0].url, "https://app.test:3000/",
        "same pid keeps advertised url"
    );
    state.apply_scan(vec![observed("w1", 3000, 99)], 3);
    assert_eq!(state.services[0].url, "http://localhost:3000");
    assert_eq!(state.services[0].source, Source::Detected);
}

#[test]
fn newest_first_ordering() {
    let mut state = State::default();
    state.apply_scan(vec![observed("w1", 3000, 10)], 1);
    state.apply_scan(vec![observed("w1", 3000, 10), observed("w1", 5173, 11)], 2);
    assert_eq!(state.services[0].port, 5173);
}

#[test]
fn a_service_without_a_process_fades() {
    let mut state = State::default();
    state.apply_scan(vec![observed("w1", 3000, 10)], 1);
    state.probe_liveness(&vec![true]);
    assert_eq!(state.services[0].liveness, Liveness::Up);
    state.probe_liveness(&vec![false]);
    assert_eq!(state.services[0].liveness, Liveness::Down);
    assert_eq!(state.last_scan_ms, 1);
}

#[test]
fn workspaces_are_listed_once_in_order() {
    let mut state = State::default();
    state.apply_scan(
        vec![
            observed("w2", 1, 1),
            observed("w1", 2, 2),
            observed("w2", 3, 3),
        ],
        1,
    );
    assert_eq!(state.workspace_ids(), vec!["w1", "w2"]);
    let ports: Vec<u16> = state.services_for("w2").iter().map(|s| s.port).collect();
    assert_eq!(ports.len(), 2);
    assert!(ports.contains(&1) && ports.contains(&3));
    assert!(state.services_for("w3").is_empty());
}

#[test]
fn a_label_moves_with_its_registration() {
    let mut state = State::default();
    state.apply_scan(vec![observed("w1", 3000, 10), observed("w1", 4000, 11)], 1);
    state.upsert_manual("w1".into(), "API".into(), 3000, "u".into(), 2);
    state.upsert_manual("w1".into(), "API".into(), 4000, "u".into(), 3);
    let labelled: Vec<u16> = state
        .services
        .iter()
        .filter(|s| s.label.as_deref() == Some("API"))
        .map(|s| s.port)
        .collect();
    assert_eq!(labelled, vec![4000]);
}

#[test]
fn what_was_registered_by_hand_survives_a_restart() {
    let mut state = State::default();
    state.apply_scan(vec![observed("w1", 3000, 1), observed("w1", 5173, 2)], 1);
    state.upsert_manual("w1".into(), "API".into(), 3000, "http://localhost:3000".into(), 2);
    state.upsert_manual("w2".into(), "Docs".into(), 8080, "http://docs.test:8080".into(), 3);
    let mut next = State::default();
    next.restore(&state);
    let mut labels: Vec<_> = next.services.iter().map(|s| s.label.clone().unwrap()).collect();
    labels.sort();
    assert_eq!(labels, vec!["API", "Docs"]);
    next.apply_scan(vec![observed("w1", 3000, 1)], 4);
    let api = next.services.iter().find(|s| s.port == 3000).unwrap();
    assert_eq!((api.source, api.label.as_deref()), (Source::Detected, Some("API")));
    next.apply_scan(vec![], 5);
    next.apply_scan(vec![], 6);
    assert_eq!(next.services.len(), 1);
    assert_eq!(next.services[0].label.as_deref(), Some("Docs"));
}
