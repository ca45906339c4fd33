use herdr_services::advertise::Advertisements;
use herdr_services::attribute::{PaneRef, Topology, WorkspaceRef};
use herdr_services::config::Config;
use herdr_services::doctor::{
    config_detail, daemon_detail, head, panes_with_shell, ping_detail, scan_detail, table,
    variables, Checkup,
};
use herdr_services::scan::{Listener, ProcessInfo, Snapshot};
use herdr_services::sidebar::managed_block;
use herdr_services::state::Liveness;

#[test]
fn checks_are_counted() {
    let mut c = Checkup::default();
    assert_eq!(c.finish(), Ok(()));
    assert_eq!(c.check(true, "scan", "fine"), "OK   scan: fine");
    assert_eq!(c.check(false, "herdr ping", "no"), "FAIL herdr ping: no");
    assert_eq!(c.finish(), Err("1 check(s) failed".to_string()));
}

#[test]
fn only_a_plugin_may_lack_its_directories() {
    let mut c = Checkup::default();
    let names = variables();
    assert_eq!(names.len(), 4);
    assert_eq!(
        c.check_variable("HERDR_BIN_PATH", &Some("/bin/h".into())),
        "OK   HERDR_BIN_PATH: /bin/h"
    );
    assert_eq!(
        c.check_variable("HERDR_PLUGIN_STATE_DIR", &None),
        "OK   HERDR_PLUGIN_STATE_DIR: (unset)"
    );
    assert_eq!(c.failures, 0);
    assert_eq!(
        c.check_variable("HERDR_SOCKET_PATH", &None),
        "FAIL HERDR_SOCKET_PATH: (unset)"
    );
    assert_eq!(c.failures, 1);
}

#[test]
fn details_are_put_in_words() {
    assert_eq!(ping_detail("0.9.0", 22), "version 0.9.0 protocol 22");
    assert_eq!(daemon_detail(Some(5)), "running, pid 5");
    assert_eq!(daemon_detail(None), "not running (ensure-daemon starts it)");
    assert_eq!(
        scan_detail("lsof", 3, 400, 12),
        "lsof backend, 3 listeners, 400 processes in 12 ms"
    );
    assert_eq!(
        config_detail("/c", &managed_block(2)),
        "/c — managed [ui.sidebar.spaces] block installed"
    );
    assert_eq!(
        config_detail("/c", "[ui.sidebar.spaces]\n"),
        "/c — [ui.sidebar.spaces] owned by user or another plugin; run `configure --print` and paste"
    );
    assert_eq!(
        config_detail("/c", ""),
        "/c — no sidebar rows yet; run the `configure` action"
    );
}

fn topology() -> Topology {
    Topology::new(
        vec![WorkspaceRef {
            workspace_id: "w1".into(),
            label: "api".into(),
            checkout_path: Some("/srv/api".into()),
        }],
        vec![
            PaneRef {
                pane_id: "p1".into(),
                workspace_id: "w1".into(),
                shell_pid: Some(10),
                cwds: vec![],
            },
            PaneRef {
                pane_id: "p2".into(),
                workspace_id: "w1".into(),
                shell_pid: None,
                cwds: vec![],
            },
        ],
        None,
    )
}

#[test]
fn some_shell_should_be_known() {
    let mut c = Checkup::default();
    assert_eq!(panes_with_shell(&topology()), 1);
    assert_eq!(c.check_shells(&topology()), "OK   pane shell pids: 1/2 panes");
    let mut t = topology();
    t.panes[0].shell_pid = None;
    assert_eq!(c.check_shells(&t), "FAIL pane shell pids: 0/2 panes");
    let none = Topology::new(vec![], vec![], None);
    assert_eq!(c.check_shells(&none), "OK   pane shell pids: 0/0 panes");
    assert_eq!(c.failures, 1);
}

#[test]
fn the_table_lists_each_listener_once_by_port() {
    let listener = |pid: u32, port: u16, addr: &str, name: &str| Listener {
        pid,
        port,
        addr: addr.into(),
        process_name: name.into(),
    };
    let mut s = Snapshot::default();
    s.listeners = vec![
        listener(30, 6379, "127.0.0.1", "redis-server"),
        listener(30, 6379, "[::1]", "redis-server"),
        listener(20, 3000, "*", "puma"),
        listener(40, 80, "*", "nginx"),
        listener(50, 9000, "*", "a-process-with-a-very-long-name"),
    ];
    s.processes.insert(
        20,
        ProcessInfo {
            ppid: 10,
            command: "puma".into(),
        },
    );
    s.cwds.insert(30, "/srv/api/db".into());
    let rows = table(&Config::default(), &Advertisements::default(), &s, &topology());
    let ports: Vec<u16> = rows.iter().map(|r| r.port).collect();
    assert_eq!(ports, vec![3000, 6379, 9000]);
    assert_eq!(
        (rows[0].workspace.as_str(), rows[0].via.as_str()),
        ("w1 (api)", "pane p1")
    );
    assert_eq!(rows[1].addr, "127.0.0.1");
    assert_eq!(rows[1].via, "cwd");
    assert_eq!(
        (rows[2].workspace.as_str(), rows[2].via.as_str()),
        ("—", "unattributed")
    );
    assert_eq!(
        head(),
        "port    pid     process                live       workspace                    via"
    );
    assert_eq!(
        rows[0].line(Liveness::Up),
        "3000    20      puma                   up         w1 (api)                     pane p1"
    );
    assert_eq!(
        rows[2].line(Liveness::Down),
        "9000    50      a-process-with-a-very… down       —                            unattributed"
    );
    assert!(rows[1].line(Liveness::Unknown).contains(" ?          "));
}

#[test]
fn the_table_shows_what_a_pane_started_and_what_is_advertised() {
    let listener = |pid: u32, port: u16| Listener {
        pid,
        port,
        addr: "*".into(),
        process_name: "puma".into(),
    };
    let mut s = Snapshot::default();
    s.listeners = vec![listener(20, 53512), listener(30, 53513), listener(20, 80)];
    s.processes.insert(
        20,
        ProcessInfo {
            ppid: 10,
            command: "puma".into(),
        },
    );
    s.cwds.insert(30, "/srv/api".into());
    let mut ads = Advertisements::default();
    let ports = |ads: &Advertisements| -> Vec<u16> {
        table(&Config::default(), ads, &s, &topology())
            .iter()
            .map(|r| r.port)
            .collect()
    };
    assert_eq!(ports(&ads), vec![53512]);
    ads.record("w1".into(), 80, "http://app.test:80".into(), "p1".into());
    assert_eq!(ports(&ads), vec![80, 53512]);
}
