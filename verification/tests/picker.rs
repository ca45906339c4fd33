use herdr_services::attribute::Attribution;
use herdr_services::config::Config;
use herdr_services::daemon::{Reply, Request, Signal};
use herdr_services::json::Json;
use herdr_services::picker::{
    age, context_workspace, current_workspace, label_in, row_holds, Action, Key, Line, Picker,
};
use herdr_services::screen::{Colour, Op};
use herdr_services::state::{Liveness, Service, Source, State, Unattributed};

#[test]
fn age_buckets() {
    assert_eq!(age(10_000, 0), "");
    assert_eq!(age(65_000, 5_000), "1m");
    assert_eq!(age(3_600_000 * 2 + 1000, 1000), "2h");
    assert_eq!(age(86_400_000 * 3, 0), "");
    assert_eq!(age(86_400_000 * 3 + 1, 1), "3d");
    assert_eq!(age(30_000, 1_000), "29s");
}

fn service(ws: &str, port: u16, name: &str, pid: Option<u32>) -> Service {
    Service {
        workspace_id: ws.into(),
        port,
        host_hint: "*".into(),
        pid,
        container: None,
        process_name: name.into(),
        argv_summary: String::new(),
        cwd: None,
        url: format!("http://localhost:{port}"),
        label: None,
        source: Source::Detected,
        attribution: Attribution::Cwd,
        first_seen_ms: 1_000,
        last_seen_ms: 1_000,
        liveness: Liveness::Up,
        missed_scans: 0,
        pinned_url: None,
    }
}

fn state() -> State {
    let mut s = State::default();
    s.last_scan_ms = 5;
    s.workspace_labels = vec![
        ("w1".to_string(), "zebra".to_string()),
        ("w2".to_string(), "apple".to_string()),
    ];
    s.services = vec![
        service("w1", 3000, "puma", Some(10)),
        service("w2", 4000, "vite", Some(11)),
        service("w1", 5000, "redis", None),
    ];
    s.unattributed = vec![Unattributed {
        port: 9000,
        host_hint: "*".into(),
        pid: Some(99),
        process_name: "stray".into(),
        argv_summary: String::new(),
        cwd: None,
        container: None,
    }];
    s
}

fn picker(ws: Option<&str>) -> Picker {
    let mut p = Picker::new(Config::default(), ws.map(str::to_string));
    p.load(Some(state()), 61_000);
    p
}

fn names(p: &Picker) -> Vec<&str> {
    p.rows.iter().map(|r| r.name.as_str()).collect()
}

#[test]
fn a_workspace_lists_its_own_services() {
    let p = picker(Some("w1"));
    assert!(!p.all);
    assert_eq!(names(&p), vec!["puma", "redis"]);
    assert_eq!(p.lines, vec![Line::Row(0), Line::Row(1)]);
    assert_eq!(p.rows[0].age, "1m");
    assert_eq!(p.rows[0].glyph, "●");
    assert!(p.rows[0].killable);
    assert!(!p.rows[1].killable);
}

#[test]
fn all_workspaces_are_grouped_by_label() {
    let p = picker(None);
    assert!(p.all);
    assert_eq!(names(&p), vec!["vite", "puma", "redis", "stray"]);
    assert_eq!(
        p.lines,
        vec![
            Line::Header("apple (w2)".into()),
            Line::Row(0),
            Line::Header("zebra (w1)".into()),
            Line::Row(1),
            Line::Row(2),
            Line::Header("other".into()),
            Line::Row(3),
        ]
    );
    assert_eq!(p.rows[3].glyph, "○");
    assert_eq!(p.rows[3].url, "http://localhost:9000");
}

#[test]
fn a_state_that_cannot_be_read_leaves_the_last_one() {
    let mut p = picker(Some("w1"));
    p.load(None, 62_000);
    assert_eq!(names(&p), vec!["puma", "redis"]);
}

#[test]
fn the_filter_is_edited_kept_and_cleared() {
    let mut p = picker(None);
    assert_eq!(p.handle_key(Key::Char('/'), false, 0), Action::Stay);
    assert!(p.filter_editing);
    p.handle_key(Key::Char('P'), false, 61_000);
    p.handle_key(Key::Char('U'), false, 61_000);
    assert_eq!(names(&p), vec!["puma"]);
    p.handle_key(Key::Backspace, false, 61_000);
    assert_eq!(p.filter.as_deref(), Some("P"));
    p.handle_key(Key::Enter, false, 61_000);
    assert!(!p.filter_editing);
    assert_eq!(p.handle_key(Key::Esc, false, 61_000), Action::Stay);
    assert_eq!(p.filter, None);
    assert_eq!(names(&p).len(), 4);
    assert_eq!(p.handle_key(Key::Esc, false, 61_000), Action::Close);
}

#[test]
fn an_empty_filter_is_dropped() {
    let mut p = picker(None);
    p.handle_key(Key::Char('/'), false, 0);
    p.handle_key(Key::Char('x'), false, 0);
    p.handle_key(Key::Char('u'), true, 0);
    assert_eq!(p.filter.as_deref(), Some(""));
    p.handle_key(Key::Enter, false, 0);
    assert_eq!(p.filter, None);
    p.handle_key(Key::Char('/'), false, 0);
    assert_eq!(p.handle_key(Key::Char('c'), true, 0), Action::Close);
}

#[test]
fn the_selection_stays_on_the_list() {
    let mut p = picker(Some("w1"));
    p.handle_key(Key::Up, false, 0);
    assert_eq!(p.selected, 0);
    p.handle_key(Key::Char('j'), false, 0);
    p.handle_key(Key::Char('n'), true, 0);
    p.handle_key(Key::Down, false, 0);
    assert_eq!(p.selected, 1);
    p.handle_key(Key::Char('p'), true, 0);
    assert_eq!(p.selected, 0);
    let mut empty = State::default();
    empty.last_scan_ms = 1;
    p.move_selection(true);
    p.load(Some(empty), 0);
    assert_eq!(p.selected, 0);
    p.move_selection(true);
    assert_eq!(p.selected, 0);
}

#[test]
fn rows_are_opened_and_copied() {
    let mut p = picker(Some("w1"));
    let url = "http://localhost:3000".to_string();
    assert_eq!(p.handle_key(Key::Enter, false, 0), Action::Open(url.clone()));
    assert_eq!(p.handle_key(Key::Char('y'), false, 0), Action::Copy(url.clone()));
    p.opened(&url, None);
    assert_eq!(p.status, Some(("opened http://localhost:3000".to_string(), false)));
    p.opened(&url, Some("spawn xdg-open".into()));
    assert_eq!(p.status, Some(("open failed: spawn xdg-open".to_string(), true)));
    p.copied(&url, Ok("osc 52".into()));
    assert_eq!(
        p.status,
        Some(("copied http://localhost:3000 (osc 52)".to_string(), false))
    );
    p.copied(&url, Err("no".into()));
    assert_eq!(p.status, Some(("copy failed: no".to_string(), true)));
}

#[test]
fn ending_a_service_is_confirmed_once() {
    let mut p = picker(Some("w1"));
    assert_eq!(p.handle_key(Key::Char('x'), false, 0), Action::Stay);
    assert_eq!(p.status, Some(("stop puma (pid 10)? y/n".to_string(), true)));
    assert_eq!(p.handle_key(Key::Char('n'), false, 0), Action::Stay);
    assert_eq!(p.status, Some(("kill cancelled".to_string(), false)));
    p.handle_key(Key::Char('X'), false, 0);
    assert_eq!(p.status, Some(("SIGKILL puma (pid 10)? y/n".to_string(), true)));
    let kill = match p.handle_key(Key::Char('y'), false, 0) {
        Action::Kill(k) => k,
        other => panic!("unexpected {other:?}"),
    };
    assert_eq!(
        kill.request(),
        Request::Kill {
            workspace: "w1".into(),
            port: 3000,
            pid: Some(10),
            container: None,
            signal: Signal::Kill,
        }
    );
    assert!(p.killed(&kill, Ok(Reply::granted())));
    assert_eq!(p.status, Some(("sent SIGKILL to puma".to_string(), false)));
    assert!(!p.killed(&kill, Ok(Reply::refused("gone".into()))));
    assert_eq!(p.status, Some(("gone".to_string(), true)));
    assert!(!p.killed(&kill, Ok(Reply { ok: false, pid: None, error: None })));
    assert_eq!(p.status, Some(("kill failed".to_string(), true)));
    assert!(!p.killed(&kill, Err("no socket".into())));
    assert_eq!(p.status, Some(("daemon unreachable: no socket".to_string(), true)));
    // Once confirmed, the next is not asked about.
    p.daemon_found(true);
    assert!(matches!(p.handle_key(Key::Char('x'), false, 0), Action::Kill(_)));
}

#[test]
fn strays_are_not_ended() {
    let mut p = picker(None);
    p.selected = 3;
    assert_eq!(p.handle_key(Key::Char('x'), false, 0), Action::Stay);
    assert_eq!(
        p.status,
        Some(("not attributed to a workspace; kill it yourself".to_string(), true))
    );
    assert_eq!(p.pending_kill, None);
}

#[test]
fn a_rescan_is_asked_for_and_reported() {
    let mut p = picker(Some("w1"));
    assert_eq!(p.handle_key(Key::Char('r'), false, 0), Action::Rescan);
    assert!(p.rescanned(Ok(Reply::granted())));
    assert_eq!(p.status, Some(("rescanned".to_string(), false)));
    assert!(!p.rescanned(Err("x".into())));
    assert_eq!(p.status, Some(("daemon unreachable: x".to_string(), true)));
    assert!(!p.rescanned(Ok(Reply::busy())));
    assert_eq!(p.status, Some(("daemon busy".to_string(), true)));
}

#[test]
fn a_key_toggles_all_workspaces() {
    let mut p = picker(Some("w1"));
    p.move_selection(true);
    p.handle_key(Key::Char('a'), false, 61_000);
    assert!(p.all);
    assert_eq!(p.selected, 0);
    assert_eq!(p.rows.len(), 4);
    p.handle_key(Key::Char('a'), false, 61_000);
    assert_eq!(p.rows.len(), 2);
    assert_eq!(p.handle_key(Key::Char('q'), false, 0), Action::Close);
    assert_eq!(p.handle_key(Key::Other, false, 0), Action::Stay);
}

#[test]
fn the_filter_looks_at_every_text_of_a_row() {
    let label = Some("story".to_string());
    assert!(row_holds(3000, "puma", "http://x", &label, "w1", ""));
    assert!(row_holds(3000, "puma", "http://x", &label, "w1", "300"));
    assert!(row_holds(3000, "puma", "http://x", &label, "w1", "um"));
    assert!(row_holds(3000, "puma", "http://x", &label, "w1", "tp:"));
    assert!(row_holds(3000, "puma", "http://x", &label, "w1", "tory"));
    assert!(row_holds(3000, "puma", "http://x", &label, "w1", "w1"));
    assert!(!row_holds(3000, "puma", "http://x", &None, "w1", "tory"));
}

#[test]
fn the_workspace_comes_from_the_environment_or_the_context() {
    assert_eq!(
        current_workspace(Some("w1".into()), None).as_deref(),
        Some("w1")
    );
    let context = r#"{"workspace_id":"w7","pane_id":"p"}"#.to_string();
    assert_eq!(
        current_workspace(Some(String::new()), Some(context.clone())).as_deref(),
        Some("w7")
    );
    assert_eq!(current_workspace(None, Some(context)).as_deref(), Some("w7"));
    assert_eq!(current_workspace(None, Some("{".into())), None);
    assert_eq!(current_workspace(None, Some(r#"{"workspace_id":3}"#.into())), None);
    assert_eq!(current_workspace(None, None), None);
    let parts = Json::Object(vec![("workspace_id".to_string(), "\"w9\"".to_string())]);
    assert_eq!(context_workspace(&parts).as_deref(), Some("w9"));
}

#[test]
fn a_workspace_without_a_label_has_an_empty_one() {
    let labels = vec![("w1".to_string(), "zebra".to_string())];
    assert_eq!(label_in(&labels, "w1"), "zebra");
    assert_eq!(label_in(&labels, "w2"), "");
}

fn text(ops: &[Op]) -> String {
    ops.iter()
        .map(|o| match o {
            Op::Text(t) => t.as_str(),
            _ => "",
        })
        .collect()
}

#[test]
fn a_frame_fills_the_terminal() {
    let mut p = picker(Some("w1"));
    let ops = p.render(80, 10);
    let shown = text(&ops);
    let lines: Vec<&str> = shown.split("\r\n").collect();
    assert_eq!(lines.len(), 10);
    assert_eq!(
        lines[0],
        format!(" services · zebra{}2 listening", " ".repeat(51))
    );
    assert_eq!(lines[1], "─".repeat(80));
    assert_eq!(
        lines[2],
        format!(
            " ● puma   :3000   http://localhost:3000{}1m ",
            " ".repeat(80 - 43)
        )
    );
    assert_eq!(lines[4], "");
    assert_eq!(lines[7], "─".repeat(80));
    assert_eq!(lines[8], "");
    assert_eq!(
        lines[9],
        " ⏎ open  y copy  x kill  X kill-9  r rescan  a all  / filter  q close"
    );
    assert_eq!(ops[0], Op::Bold);
    assert!(ops.contains(&Op::Ink(Colour::Green)));
    assert!(ops.contains(&Op::Reverse));
}

#[test]
fn a_wide_frame_spells_the_keys_out() {
    let mut p = picker(None);
    let shown = text(&p.render(100, 20));
    assert!(shown.ends_with(
        " ⏎ open   y copy url   x kill   X kill -9   r rescan   a this ws   / filter   q close"
    ));
    assert!(shown.starts_with(" services · all workspaces"));
    assert!(shown.contains(" apple (w2)\r\n"));
}

#[test]
fn the_list_scrolls_to_the_selection() {
    let mut p = picker(None);
    p.selected = 3;
    let shown = text(&p.render(80, 7));
    assert_eq!(p.scroll, 5);
    assert!(shown.contains("stray"));
    assert!(!shown.contains("vite"));
    p.selected = 0;
    p.render(80, 7);
    assert_eq!(p.scroll, 1);
}

#[test]
fn an_empty_list_says_why() {
    let mut p = Picker::new(Config::default(), Some("w1".into()));
    assert!(text(&p.render(80, 10)).contains(" waiting for the first scan…\r\n"));
    p.load(Some(state()), 0);
    p.filter = Some("nothing like it".into());
    p.rebuild(0);
    let shown = text(&p.render(80, 10));
    assert!(shown.contains(" no matches\r\n"));
    assert!(shown.contains(" filter: nothing like it  (/ edit, esc clear)"));
    p.filter = None;
    p.workspace = Some("w3".into());
    p.rebuild(0);
    assert!(text(&p.render(80, 10))
        .contains(" no services detected in this workspace (a for all)\r\n"));
}

#[test]
fn the_status_line_speaks_of_one_thing() {
    let mut p = picker(Some("w1"));
    p.state.last_error = Some("lsof timed out".into());
    assert!(text(&p.render(80, 10)).contains(" daemon: lsof timed out\r\n"));
    p.filter = Some("pu".into());
    p.filter_editing = true;
    assert!(text(&p.render(80, 10)).contains(" /pu \r\n"));
    p.status = Some(("0123456789".into(), true));
    let ops = p.render(9, 10);
    assert!(text(&ops).contains(" 012345…\r\n"));
    assert!(ops.contains(&Op::Ink(Colour::Yellow)));
}

#[test]
fn a_row_shows_its_label_and_container() {
    let mut s = state();
    s.services[0].label = Some("API".into());
    s.services[0].container = Some("acme-api-postgres-with-a-long-name-1".into());
    s.services[0].liveness = Liveness::Down;
    let mut p = Picker::new(Config::default(), Some("w1".into()));
    p.load(Some(s), 1_500);
    let ops = p.render(120, 10);
    assert!(text(&ops).contains("http://localhost:3000  API  ⧉ acme-api-postgres-with-…"));
    assert!(ops.contains(&Op::Ink(Colour::Red)));
}

#[test]
fn kill_is_hidden_while_the_daemon_is_out_of_reach() {
    let mut p = picker(Some("w1"));
    assert_eq!(p.handle_key(Key::Char('x'), false, 0), Action::Stay);
    assert!(p.pending_kill.is_some());
    p.daemon_found(false);
    assert!(p.pending_kill.is_none());
    assert_eq!(p.handle_key(Key::Char('X'), false, 0), Action::Stay);
    assert!(p.pending_kill.is_none());
    assert!(text(&p.render(80, 10)).ends_with(
        "\r\n ⏎ open   y copy url   r rescan   a all   / filter   q close"
    ));
    assert!(text(&p.render(40, 10)).ends_with("\r\n ⏎ open  y copy  r rescan  a all  / fil…"));
    p.daemon_found(true);
    assert!(text(&p.render(80, 10)).contains("x kill"));
    assert!(!p.rescanned(Err("gone".into())));
    assert!(!p.reachable);
    assert!(!text(&p.render(80, 10)).contains("x kill"));
}
