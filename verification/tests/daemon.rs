use herdr_services::attribute::{Attribution, WorkspaceRef};
use herdr_services::config::Config;
use herdr_services::daemon::{
    after_ending, deciding_socket, live_daemon_pid, topology_events, workspace_labels, Daemon,
    Ending, Next, Reply, Request, Schedule, Signal, Task, Wake,
};
use herdr_services::herdr::{Pane, Workspace, Worktree};
use herdr_services::observe::summarise;
use herdr_services::scan::docker::{Container, PublishedPort};
use herdr_services::scan::{Listener, ProcessInfo, Snapshot};
use herdr_services::state::{Source, State};

#[test]
fn summarise_caps_long_commands() {
    let long = "x".repeat(300);
    let s = summarise(&long);
    assert_eq!(s.chars().count(), 120);
    assert!(s.ends_with('…'));
    assert_eq!(summarise("short"), "short");
}

fn daemon() -> Daemon {
    Daemon::new(Config::default(), 7, "procfs")
}

fn workspaces() -> Vec<Workspace> {
    vec![
        Workspace {
            workspace_id: "w1".into(),
            label: "api".into(),
            worktree: Some(Worktree {
                checkout_path: "/srv/api".into(),
            }),
        },
        Workspace {
            workspace_id: "w2".into(),
            label: "web".into(),
            worktree: None,
        },
    ]
}

fn panes() -> Vec<Pane> {
    vec![
        Pane {
            pane_id: "p1".into(),
            workspace_id: "w1".into(),
            cwd: Some("/srv/api".into()),
            foreground_cwd: Some("/srv/api".into()),
        },
        Pane {
            pane_id: "p2".into(),
            workspace_id: "w2".into(),
            cwd: Some("/home/u".into()),
            foreground_cwd: Some("/srv/web".into()),
        },
    ]
}

fn listener(pid: u32, port: u16, name: &str) -> Listener {
    Listener {
        pid,
        port,
        addr: "*".into(),
        process_name: name.into(),
    }
}

fn process(ppid: u32, command: &str) -> ProcessInfo {
    ProcessInfo {
        ppid,
        command: command.into(),
    }
}

/// A server under the shell of `p1`, a daemon in `w1`'s checkout, and a stray.
fn snapshot() -> Snapshot {
    let mut s = Snapshot::default();
    s.listeners = vec![
        listener(20, 53512, "ruby"),
        listener(30, 6379, "redis-server"),
        listener(40, 9000, "stray"),
    ];
    s.processes.insert(10, process(1, "zsh"));
    s.processes.insert(20, process(10, "puma 8.0.2 (tcp://0.0.0.0:0) [app]"));
    s.processes.insert(30, process(1, "redis-server *:6379"));
    s.processes.insert(40, process(1, "stray"));
    s.cwds.insert(30, "/srv/api/db".into());
    s
}

fn scanned() -> Daemon {
    let mut d = daemon();
    d.learn_shell("p1".into(), Some(10));
    let topology = d.topology(&workspaces(), &panes(), Some("/home/u".into()));
    d.apply(&snapshot(), &topology, &vec![], 100);
    d
}

#[test]
fn a_scan_fills_the_registry() {
    let d = scanned();
    assert_eq!(d.state.services.len(), 2);
    let puma = d.state.services.iter().find(|s| s.port == 53512).unwrap();
    assert_eq!(puma.process_name, "puma");
    assert_eq!(puma.workspace_id, "w1");
    assert_eq!(
        puma.attribution,
        Attribution::Pane {
            pane_id: "p1".into()
        }
    );
    let redis = d.state.services.iter().find(|s| s.port == 6379).unwrap();
    assert_eq!(redis.attribution, Attribution::Cwd);
    assert_eq!(redis.url, "http://localhost:6379");
    assert_eq!(redis.cwd.as_deref(), Some("/srv/api/db"));
    assert_eq!(d.state.unattributed.len(), 1);
    assert_eq!(d.state.unattributed[0].port, 9000);
    assert_eq!(
        d.state.workspace_labels,
        vec![
            ("w1".to_string(), "api".to_string()),
            ("w2".to_string(), "web".to_string())
        ]
    );
    assert_eq!(d.state.scan_backend, "procfs");
    assert_eq!(d.state.daemon_pid, 7);
}

#[test]
fn a_container_yields_to_a_process_on_its_port() {
    let mut d = daemon();
    let topology = d.topology(&workspaces(), &panes(), None);
    let container = |port: u16| Container {
        id: "1".into(),
        name: "api-db-1".into(),
        service: "db".into(),
        project: None,
        working_dir: Some("/srv/api".into()),
        image: "postgres".into(),
        ports: vec![PublishedPort {
            host_addr: "*".into(),
            host_port: port,
            container_port: 5432,
        }],
    };
    d.apply(&snapshot(), &topology, &vec![container(6379), container(50001)], 1);
    let redis = d.state.services.iter().find(|s| s.port == 6379).unwrap();
    assert_eq!(redis.container, None);
    assert_eq!(redis.pid, Some(30));
    let db = d.state.services.iter().find(|s| s.port == 50001).unwrap();
    assert_eq!(db.container.as_deref(), Some("api-db-1"));
    assert_eq!(db.process_name, "db");
    assert_eq!(db.attribution, Attribution::Container);
}

#[test]
fn what_a_pane_prints_is_ranked_as_configured() {
    let named = "ready on http://app.test:3000/x";
    let local = "Local: http://localhost:3000";
    let mut d = daemon();
    assert!(!d.advertise("w1".into(), "p1".into(), "nothing to see"));
    assert!(d.advertise("w1".into(), "p1".into(), named));
    assert!(!d.advertise("w1".into(), "p1".into(), local));
    assert_eq!(
        d.advertisements.get("w1", 3000).as_deref(),
        Some("http://app.test:3000/x")
    );

    let mut config = Config::default();
    config.urls.prefer_hostname = false;
    let mut d = Daemon::new(config, 7, "procfs");
    assert!(d.advertise("w1".into(), "p1".into(), named));
    assert!(d.advertise("w1".into(), "p1".into(), local));
    assert_eq!(
        d.advertisements.get("w1", 3000).as_deref(),
        Some("http://localhost:3000")
    );
}

#[test]
fn an_advertised_url_is_adopted_and_dropped_with_its_process() {
    let mut d = scanned();
    d.advertisements.record(
        "w1".into(),
        6379,
        "https://redis.test:6379".into(),
        "p1".into(),
    );
    let topology = d.topology(&workspaces(), &panes(), None);
    d.apply(&snapshot(), &topology, &vec![], 200);
    let redis = d.state.services.iter().find(|s| s.port == 6379).unwrap();
    assert_eq!(redis.source, Source::Advertised);
    assert_eq!(redis.url, "https://redis.test:6379");

    let mut restarted = snapshot();
    restarted.listeners[1].pid = 31;
    restarted.processes.insert(31, process(1, "redis-server *:6379"));
    restarted.cwds.insert(31, "/srv/api/db".into());
    d.apply(&restarted, &topology, &vec![], 300);
    let redis = d.state.services.iter().find(|s| s.port == 6379).unwrap();
    assert_eq!(redis.source, Source::Detected);
    assert_eq!(redis.url, "http://localhost:6379");
    assert_eq!(d.advertisements.get("w1", 6379), None);
}

#[test]
fn panes_bring_their_directories_once() {
    let mut d = daemon();
    d.learn_shell("p2".into(), None);
    assert_eq!(d.unasked_panes(&panes()), vec!["p1"]);
    let t = d.topology(&workspaces(), &panes(), Some("/home/u".into()));
    assert_eq!(t.panes[0].cwds, vec!["/srv/api"]);
    assert_eq!(t.panes[1].cwds, vec!["/home/u", "/srv/web"]);
    assert_eq!(t.excluded_roots, vec!["/", "/home/u"]);
    d.learn_shell("p1".into(), Some(10));
    d.learn_shell("p1".into(), Some(11));
    let t = d.topology(&workspaces(), &panes(), None);
    assert_eq!(t.panes[0].shell_pid, Some(11));
    d.keep_live_shells(&vec![]);
    assert_eq!(d.unasked_panes(&panes()), vec!["p1", "p2"]);
}

#[test]
fn only_what_the_last_scan_saw_is_ended() {
    let d = scanned();
    assert_eq!(
        d.kill("w1", 6379, Some(30), None, Signal::Term),
        Ok(Ending::Process {
            pid: 30,
            signal: Signal::Term
        })
    );
    assert_eq!(
        d.kill("w1", 6379, Some(31), None, Signal::Term),
        Err("no attributed service w1:6379 with pid 31; rescan and retry".to_string())
    );
    assert!(d.kill("w2", 6379, Some(30), None, Signal::Term).is_err());
    assert!(d.kill("w1", 6379, None, Some("db".into()), Signal::Kill).is_err());
    assert!(d.kill("w1", 6379, None, None, Signal::Kill).is_err());
}

#[test]
fn containers_are_ended_by_docker() {
    let mut d = scanned();
    d.state.services[0].container = Some("db-1".into());
    let port = d.state.services[0].port;
    assert_eq!(
        d.kill("w1", port, None, Some("db-1".into()), Signal::Term),
        Ok(Ending::Container {
            args: vec!["stop".to_string(), "db-1".to_string()]
        })
    );
    assert_eq!(
        d.kill("w1", port, None, Some("db-1".into()), Signal::Kill),
        Ok(Ending::Container {
            args: vec!["kill".to_string(), "db-1".to_string()]
        })
    );
}

#[test]
fn requests_are_answered() {
    let mut d = scanned();
    assert_eq!(
        d.handle(Request::Ping, 7, 1),
        Task::Answer(Reply {
            ok: true,
            pid: Some(7),
            error: None
        })
    );
    assert_eq!(
        d.handle(Request::Rescan, 7, 1),
        Task::ScanThenAnswer(Reply::granted())
    );
    let added = d.handle(
        Request::Add {
            workspace: "w2".into(),
            label: "Docs".into(),
            port: 8443,
            url: None,
        },
        7,
        5,
    );
    assert_eq!(added, Task::ScanThenAnswer(Reply::granted()));
    let docs = d.state.services.iter().find(|s| s.port == 8443).unwrap();
    assert_eq!(docs.url, "https://localhost:8443");
    assert_eq!(docs.source, Source::Manual);
    assert_eq!(
        d.handle(Request::Remove { label: "Docs".into() }, 7, 6),
        Task::ScanThenAnswer(Reply::granted())
    );
    assert_eq!(
        d.handle(Request::Remove { label: "Docs".into() }, 7, 6),
        Task::Answer(Reply::refused("no service labelled Docs".into()))
    );
    assert_eq!(
        d.handle(
            Request::Kill {
                workspace: "w1".into(),
                port: 6379,
                pid: Some(30),
                container: None,
                signal: Signal::Kill,
            },
            7,
            6
        ),
        Task::End(Ending::Process {
            pid: 30,
            signal: Signal::Kill
        })
    );
    assert!(!d.ends_after(&Reply::granted()));
    assert_eq!(
        d.handle(Request::Shutdown, 7, 6),
        Task::Answer(Reply::granted())
    );
    assert!(d.ends_after(&Reply::granted()));
    assert!(!d.ends_after(&Reply::busy()));
}

#[test]
fn what_comes_of_an_ending_decides_the_answer() {
    assert_eq!(after_ending(Ok(())), Task::ScanThenAnswer(Reply::granted()));
    assert_eq!(
        after_ending(Err("kill 3".into())),
        Task::Answer(Reply::refused("kill 3".into()))
    );
    assert_eq!(
        Reply::bad_request("expected value").error.as_deref(),
        Some("bad request: expected value")
    );
    assert_eq!(Reply::busy().error.as_deref(), Some("daemon busy"));
}

#[test]
fn manual_entries_outlive_the_daemon() {
    let mut d = scanned();
    d.handle(
        Request::Add {
            workspace: "w2".into(),
            label: "Docs".into(),
            port: 8443,
            url: None,
        },
        7,
        5,
    );
    let mut next = daemon();
    next.restore(&d.state);
    assert_eq!(next.state.services.len(), 1);
    assert_eq!(next.state.services[0].label.as_deref(), Some("Docs"));
    next.restore(&State::default());
    assert!(next.state.services.is_empty());
}

#[test]
fn failures_lengthen_the_interval() {
    let mut d = daemon();
    assert_eq!(d.interval_after_result(), 15);
    let mut pauses = vec![];
    for _ in 0..6 {
        d.record_result(Err("lsof timed out".into()), 9, 10);
        pauses.push(d.interval_after_result());
    }
    assert_eq!(pauses, vec![30, 60, 120, 240, 300, 300]);
    assert_eq!(d.state.last_error.as_deref(), Some("lsof timed out"));
    d.record_result(Ok(()), 12, 20);
    assert_eq!(d.interval_after_result(), 15);
    assert_eq!(d.state.last_error, None);
    assert_eq!((d.state.last_scan_duration_ms, d.state.updated_ms), (12, 20));
}

#[test]
fn events_are_gathered_before_a_scan() {
    let mut s = Schedule::start(1_000);
    assert_eq!(s.wait(1_000), 0);
    assert_eq!(s.woken(Wake::Timeout, 1_000, true), Next::Scan);
    s.scanned(1_500, 15);
    assert_eq!(s.wait(1_500), 15_000);
    assert_eq!(s.woken(Wake::Event, 2_000, true), Next::Wait);
    assert_eq!(s.wait(2_000), 2_000);
    assert_eq!(s.woken(Wake::Event, 3_000, true), Next::Wait);
    assert_eq!(s.wait(3_000), 1_000);
    assert_eq!(s.woken(Wake::Timeout, 4_000, true), Next::Scan);
    assert_eq!(s.pending_event, None);
    assert_eq!(s.woken(Wake::Control { stop: false }, 4_000, true), Next::Wait);
    assert_eq!(s.woken(Wake::Control { stop: true }, 4_000, true), Next::Exit);
    assert_eq!(s.woken(Wake::HerdrGone, 4_000, true), Next::Exit);
    assert_eq!(s.woken(Wake::Disconnected, 4_000, true), Next::Exit);
    assert_eq!(s.woken(Wake::Timeout, 4_000, false), Next::Exit);
}

#[test]
fn the_sidebar_is_filled_for_each_workspace() {
    let mut d = scanned();
    assert_eq!(
        d.sidebar_rows(),
        vec![(
            "w1".to_string(),
            vec!["○ redis-server:6379".to_string(), "○ puma:53512".to_string()]
        )]
    );
    let clears = d.cleanup_clears();
    assert_eq!(clears.len(), 1);
    assert_eq!(clears[0].1.len(), 8);
    assert_eq!(clears[0].1[7], "svc_8");
    d.config.sidebar.enabled = false;
    assert!(d.sidebar_rows().is_empty());
}

#[test]
fn labels_go_by_workspace() {
    let refs = vec![
        WorkspaceRef {
            workspace_id: "w2".into(),
            label: "b".into(),
            checkout_path: None,
        },
        WorkspaceRef {
            workspace_id: "w1".into(),
            label: "a".into(),
            checkout_path: None,
        },
        WorkspaceRef {
            workspace_id: "w2".into(),
            label: "c".into(),
            checkout_path: None,
        },
    ];
    assert_eq!(
        workspace_labels(&refs),
        vec![
            ("w1".to_string(), "a".to_string()),
            ("w2".to_string(), "c".to_string())
        ]
    );
}

#[test]
fn a_daemon_is_alive_where_it_answers() {
    let yes = Some(Reply {
        ok: true,
        pid: Some(9),
        error: None,
    });
    assert_eq!(live_daemon_pid(true, &yes), Some(9));
    assert_eq!(live_daemon_pid(false, &yes), None);
    assert_eq!(live_daemon_pid(true, &Some(Reply::busy())), None);
    assert_eq!(live_daemon_pid(true, &None), None);
}

#[test]
fn only_marked_sessions_are_swept() {
    let marker = Some("/run/herdr.sock\n".to_string());
    assert_eq!(
        deciding_socket("/s/stale", "/s/current", &marker).as_deref(),
        Some("/run/herdr.sock")
    );
    assert_eq!(deciding_socket("/s/current", "/s/current", &marker), None);
    assert_eq!(deciding_socket("/s/unmarked", "/s/current", &None), None);
}

#[test]
fn the_daemon_listens_for_panes_and_workspaces() {
    assert_eq!(
        topology_events(),
        vec!["pane.created", "pane.exited", "pane.closed", "workspace.closed"]
    );
}
