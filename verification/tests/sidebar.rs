use herdr_services::attribute::Attribution;
use herdr_services::sidebar::{
    foreign_spaces_table, glyph, has_block, install_block, keys, managed_block, remove_block,
    row_text, rows_for, rows_snippet, token_key, BlockError, Reporter, BLOCK_END, BLOCK_START,
};
use herdr_services::state::{Liveness, Service, Source};

fn svc(port: u16, name: &str, liveness: Liveness, pid: Option<u32>) -> Service {
    Service {
        workspace_id: "w1".into(),
        port,
        host_hint: "*".into(),
        pid,
        container: None,
        process_name: name.into(),
        argv_summary: String::new(),
        cwd: None,
        url: String::new(),
        label: None,
        source: Source::Detected,
        attribution: Attribution::Cwd,
        first_seen_ms: 0,
        last_seen_ms: 0,
        liveness,
        missed_scans: 0,
        pinned_url: None,
    }
}

#[test]
fn row_text_uses_label_over_name_and_liveness_glyph() {
    let up = svc(3000, "puma", Liveness::Up, Some(1));
    assert_eq!(row_text(&up), "● puma:3000");
    let down = svc(6379, "redis-server", Liveness::Down, Some(2));
    assert_eq!(row_text(&down), "◌ redis-server:6379");
    let mut manual = svc(6006, "", Liveness::Down, None);
    manual.label = Some("Storybook".into());
    assert_eq!(row_text(&manual), "○ Storybook:6006");
}

#[test]
fn rows_sort_by_port_and_fold_overflow() {
    let a = svc(5173, "node", Liveness::Up, Some(1));
    let b = svc(3000, "puma", Liveness::Up, Some(2));
    let c = svc(6379, "redis", Liveness::Up, Some(3));
    let rows = rows_for(&[&a, &b, &c], 8);
    assert_eq!(rows, vec!["● puma:3000", "● node:5173", "● redis:6379"]);
    let rows = rows_for(&[&a, &b, &c], 2);
    assert_eq!(rows, vec!["● puma:3000", "… +2 more"]);
}

#[test]
fn install_appends_and_refresh_replaces_in_place() {
    let base = "[ui]\ntab_bar = true\n";
    let installed = install_block(base, 2).unwrap();
    assert!(installed.starts_with(base));
    assert!(installed.contains("$svc_2"));
    assert!(!installed.contains("$svc_3"));
    let refreshed = install_block(&installed, 3).unwrap();
    assert!(refreshed.contains("$svc_3"));
    assert_eq!(refreshed.matches(BLOCK_START).count(), 1);
    assert_eq!(remove_block(&refreshed), base);
}

#[test]
fn foreign_spaces_table_is_refused() {
    let text = "[ui.sidebar.spaces]\nrows = [[\"workspace\"]]\n";
    assert!(install_block(text, 8).is_err());
    let ours = install_block("", 8).unwrap();
    assert!(!foreign_spaces_table(&ours));
}

#[test]
fn remove_is_noop_without_block() {
    assert_eq!(remove_block("[ui]\n"), "[ui]\n");
}

#[test]
fn a_refusal_says_why() {
    let text = "[ui.sidebar.spaces]\nrows = []\n";
    assert_eq!(install_block(text, 8), Err(BlockError::ForeignTable));
    assert_eq!(
        BlockError::ForeignTable.message(),
        "config already defines [ui.sidebar.spaces] outside the herdr-services block"
    );
}

#[test]
fn a_block_is_removed_from_where_it_stands() {
    let before = "[ui]\na = 1\n\n";
    let after = "[other]\nb = 2\n";
    let text = format!("{before}{}{after}", managed_block(3));
    assert!(has_block(&text));
    let gone = remove_block(&text);
    assert!(!has_block(&gone));
    assert!(gone.contains("[other]\nb = 2\n"));
    let again = install_block(&text, 1).unwrap();
    assert_eq!(again, format!("{before}{}{after}", managed_block(1)));
}

#[test]
fn the_block_stands_between_its_marks() {
    let block = managed_block(1);
    assert!(block.starts_with(&format!("{BLOCK_START}\n[ui.sidebar.spaces]\nrow_gap = 0\n")));
    assert!(block.ends_with(&format!("{BLOCK_END}\n")));
    assert!(block.contains(&rows_snippet(1)));
    assert!(rows_snippet(2).contains("$svc_2"));
}

#[test]
fn an_unprobed_or_absent_listener_has_an_empty_glyph() {
    assert_eq!(glyph(&svc(1, "x", Liveness::Unknown, Some(1))), "○");
    assert_eq!(glyph(&svc(1, "x", Liveness::Up, Some(1))), "●");
    assert_eq!(glyph(&svc(1, "x", Liveness::Down, Some(1))), "◌");
}

#[test]
fn a_row_never_exceeds_a_token() {
    let s = svc(3000, &"n".repeat(200), Liveness::Up, Some(1));
    let row = row_text(&s);
    assert_eq!(row.chars().count(), 80);
    let s = svc(3000, "", Liveness::Up, Some(1));
    assert_eq!(row_text(&s), "● ?:3000");
}

#[test]
fn token_keys_count_from_one() {
    assert_eq!(token_key(0), "svc_1");
    assert_eq!(keys(2, 4), vec!["svc_3", "svc_4"]);
    assert!(keys(3, 3).is_empty());
}

#[test]
fn a_shorter_report_clears_what_is_left_over() {
    let mut r = Reporter::default();
    let first = r.report("w1", &vec!["a".to_string(), "b".to_string()]);
    assert!(first.changed);
    assert_eq!(
        first.set,
        vec![
            ("svc_1".to_string(), "a".to_string()),
            ("svc_2".to_string(), "b".to_string())
        ]
    );
    assert!(first.clear.is_empty());
    r.acknowledge("w1", vec!["a".into(), "b".into()]);

    let same = r.report("w1", &vec!["a".to_string(), "b".to_string()]);
    assert!(!same.changed);
    assert_eq!(same.set.len(), 2);

    let fewer = r.report("w1", &vec!["a".to_string()]);
    assert!(fewer.changed);
    assert_eq!(fewer.clear, vec!["svc_2".to_string()]);
}

#[test]
fn workspaces_that_went_are_cleared_once() {
    let mut r = Reporter::default();
    r.acknowledge("w1", vec!["a".into()]);
    r.acknowledge("w2", vec!["b".into(), "c".into()]);
    let gone = r.clear_missing(&vec!["w1".to_string()]);
    assert_eq!(
        gone,
        vec![(
            "w2".to_string(),
            vec!["svc_1".to_string(), "svc_2".to_string()]
        )]
    );
    assert!(r.clear_missing(&vec!["w1".to_string()]).is_empty());
}
