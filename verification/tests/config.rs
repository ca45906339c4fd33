use herdr_services::config::{Config, ConfigError, Scan};

#[test]
fn filters_apply_in_order() {
    let cfg = Config::default();
    assert!(cfg.accepts(3000, "node", "node server.js"));
    assert!(!cfg.accepts(7000, "ControlCenter", ""));
    assert!(!cfg.accepts(80, "nginx", "nginx"));
    assert!(
        !cfg.accepts(51234, "omp", "omp worker"),
        "ephemeral hidden by default"
    );

    let cfg = Config {
        scan: Scan {
            hide_ephemeral: false,
            ignore_commands: vec!["mcp-server".into()],
            ..Scan::default()
        },
        ..Config::default()
    };
    assert!(cfg.accepts(51234, "node", "node app.js"));
    assert!(!cfg.accepts(3000, "node", "node mcp-server.js"));

    let cfg = Config {
        scan: Scan {
            allow_processes: vec!["puma".into()],
            ..Scan::default()
        },
        ..Config::default()
    };
    assert!(cfg.accepts(3000, "puma", ""));
    assert!(!cfg.accepts(3000, "node", ""));
}

#[test]
fn https_ports_get_https_scheme() {
    let cfg = Config::default();
    assert_eq!(cfg.url_for(3000), "http://localhost:3000");
    assert_eq!(cfg.url_for(8443), "https://localhost:8443");
}

#[test]
fn defaults_suit_a_development_machine() {
    let cfg = Config::default();
    assert_eq!(cfg.scan.interval_seconds, 15);
    assert_eq!(cfg.scan.command_timeout_ms, 4000);
    assert_eq!(cfg.scan.min_port, 1024);
    assert_eq!(
        cfg.scan.ignore_processes,
        vec![
            "rapportd",
            "sharingd",
            "ControlCenter",
            "com.docker.backend",
            "omp",
            "Google Chrome for Testing"
        ]
    );
    assert!(!cfg.accepts(3000, "omp", "omp worker"));
    assert!(!cfg.accepts(3000, "Google Chrome for Testing", ""));
    assert!(!cfg.accepts(7000, "ControlCenter", ""));
    assert!(cfg.accepts(3000, "node", "node server.js"));
    assert!(cfg.scan.hide_ephemeral);
    assert!(cfg.docker.enabled);
    assert!(cfg.urls.prefer_hostname);
    assert_eq!(cfg.sidebar.max_rows, 8);
    assert!(cfg.picker.confirm_kill);
    assert_eq!(cfg.check(), Ok(()));
}

#[test]
fn durations_have_a_floor() {
    let mut cfg = Config::default();
    assert_eq!(cfg.interval(), 15);
    assert_eq!(cfg.command_timeout(), 4000);
    cfg.scan.interval_seconds = 0;
    cfg.scan.command_timeout_ms = 7;
    assert_eq!(cfg.interval(), 1);
    assert_eq!(cfg.command_timeout(), 100);
}

#[test]
fn rows_live_for_six_intervals() {
    let mut cfg = Config::default();
    cfg.scan.interval_seconds = 5;
    assert_eq!(cfg.sidebar_ttl_ms(), 30_000);
}

#[test]
fn row_caps_out_of_range_are_refused() {
    let mut cfg = Config::default();
    cfg.sidebar.max_rows = 0;
    assert_eq!(cfg.check(), Err(ConfigError::MaxRows));
    cfg.sidebar.max_rows = 17;
    assert_eq!(cfg.check_range(), Err(ConfigError::MaxRows));
    cfg.sidebar.max_rows = 16;
    assert_eq!(cfg.check(), Ok(()));
    assert_eq!(
        ConfigError::MaxRows.message(),
        "sidebar.max_rows must be between 1 and 16"
    );
}

#[test]
fn bad_patterns_are_refused() {
    let mut cfg = Config::default();
    cfg.scan.ignore_commands = vec!["fine".into(), "(".into()];
    match cfg.check() {
        Err(ConfigError::Pattern(m)) => {
            assert!(!m.is_empty());
            assert_ne!(m, "(");
            assert_eq!(ConfigError::Pattern(m.clone()).message(), m);
        }
        other => panic!("unexpected {other:?}"),
    }
}

#[test]
fn patterns_match_anywhere_on_the_command_line() {
    let mut cfg = Config::default();
    cfg.scan.ignore_commands = vec!["^node .*lsp$".into()];
    assert!(cfg.hides("node ts-lsp"));
    assert!(!cfg.hides("node ts-lsp --stdio"));
}

#[test]
fn panes_and_advertisements_exempt_from_the_port_filters() {
    let cfg = Config::default();
    assert!(!cfg.admits(53512, "puma", false, false, false));
    assert!(cfg.admits(53512, "puma", false, true, false));
    assert!(!cfg.admits(80, "nginx", false, true, false));
    assert!(cfg.admits(80, "nginx", false, true, true));
    assert!(!cfg.admits(3000, "node", true, true, true));
    assert!(!cfg.admits(3000, "omp", false, true, true));
}

#[test]
fn published_ports_may_be_high() {
    let cfg = Config::default();
    assert!(cfg.accepts_container(50000, "postgres", false));
    assert!(!cfg.accepts_container(50000, "com.docker.backend", false));
    assert!(!cfg.accepts_container(80, "web", false));
    assert!(cfg.accepts_container(80, "web", true));
}
