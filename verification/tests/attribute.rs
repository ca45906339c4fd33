use herdr_services::attribute::{
    attribute, attribute_container, path_on_boundary, Attribution, PaneRef, Topology, WorkspaceRef,
};
use herdr_services::scan::{ProcessInfo, Snapshot};

fn topology() -> Topology {
    let mut t = Topology::new(
        vec![
            WorkspaceRef {
                workspace_id: "w8".into(),
                label: "acme-api".into(),
                checkout_path: Some("/home/u/projects/acme-api".into()),
            },
            WorkspaceRef {
                workspace_id: "wN".into(),
                label: "feature-x".into(),
                checkout_path: Some("/home/u/projects/worktrees/acme-api/feature-x".into()),
            },
            WorkspaceRef {
                workspace_id: "wG".into(),
                label: "blog".into(),
                checkout_path: None,
            },
        ],
        vec![
            PaneRef {
                pane_id: "w8:p1".into(),
                workspace_id: "w8".into(),
                shell_pid: Some(100),
                cwds: vec!["/home/u/projects/acme-api".into()],
            },
            PaneRef {
                pane_id: "wG:p1".into(),
                workspace_id: "wG".into(),
                shell_pid: Some(200),
                cwds: vec!["/home/u".into(), "/home/u/projects/blog/".into()],
            },
        ],
        None,
    );
    t.excluded_roots = vec!["/".into(), "/home/u".into()];
    t
}

fn snapshot() -> Snapshot {
    let mut s = Snapshot::default();
    let mut proc = |pid, ppid, command: &str| {
        s.processes.insert(
            pid,
            ProcessInfo {
                ppid,
                command: command.into(),
            },
        );
    };
    proc(100, 1, "zsh");
    proc(200, 1, "zsh");
    proc(300, 100, "bin/dev");
    proc(301, 300, "puma");
    proc(400, 1, "overmind"); // re-parented daemon
    proc(
        500,
        1,
        "node /home/u/projects/worktrees/acme-api/feature-x/dist/server.js",
    );
    proc(600, 1, "node /home/u/projects/acme-api-old/x.js");
    proc(700, 200, "python3 -m http.server");
    s.cwds.insert(
        400,
        "/home/u/projects/worktrees/acme-api/feature-x/sub".into(),
    );
    s.cwds.insert(500, "/tmp".into());
    s.cwds.insert(600, "/tmp".into());
    s.cwds.insert(700, "/home/u".into());
    s
}

#[test]
fn pane_ancestry_beats_everything() {
    let hit = attribute(301, &snapshot(), &topology()).unwrap();
    assert_eq!(hit.workspace_id, "w8");
    assert_eq!(
        hit.attribution,
        Attribution::Pane {
            pane_id: "w8:p1".into()
        }
    );
}

#[test]
fn ancestry_wins_even_when_cwd_is_excluded() {
    let hit = attribute(700, &snapshot(), &topology()).unwrap();
    assert_eq!(hit.workspace_id, "wG");
}

#[test]
fn cwd_picks_deepest_root() {
    let hit = attribute(400, &snapshot(), &topology()).unwrap();
    assert_eq!(
        hit.workspace_id, "wN",
        "worktree path is deeper than repo path"
    );
    assert_eq!(hit.attribution, Attribution::Cwd);
}

#[test]
fn command_line_match_requires_path_boundary() {
    let hit = attribute(500, &snapshot(), &topology()).unwrap();
    assert_eq!(
        (hit.workspace_id.as_str(), hit.attribution),
        ("wN", Attribution::Command)
    );
    assert!(
        attribute(600, &snapshot(), &topology()).is_none(),
        "acme-api-old is not acme-api"
    );
}

#[test]
fn home_directory_pane_does_not_own_stray_processes() {
    let mut s = snapshot();
    s.processes.insert(
        800,
        ProcessInfo {
            ppid: 1,
            command: "redis-server".into(),
        },
    );
    s.cwds.insert(800, "/home/u/other".into());
    assert!(attribute(800, &s, &topology()).is_none());
}

#[test]
fn roots_are_deepest_first_and_exclude_home() {
    let topology = topology();
    let roots = topology.roots();
    let paths: Vec<_> = roots.iter().map(|(p, _)| p.clone()).collect();
    assert_eq!(
        paths,
        vec![
            "/home/u/projects/worktrees/acme-api/feature-x",
            "/home/u/projects/acme-api",
            "/home/u/projects/blog",
        ]
    );
}

#[test]
fn boundary_matching() {
    assert!(path_on_boundary("node /a/b/dist/x.js", "/a/b"));
    assert!(path_on_boundary("FOO=/a/b node", "/a/b"));
    assert!(path_on_boundary("node \"/a/b/x\"", "/a/b"));
    assert!(!path_on_boundary("node /a/bc/x.js", "/a/b"));
    assert!(!path_on_boundary("node /z/a/b", "/a/b"));
}

#[test]
fn a_later_occurrence_on_a_boundary_counts() {
    assert!(path_on_boundary("node /a/bc /a/b", "/a/b"));
    assert!(!path_on_boundary("anything", ""));
}

#[test]
fn a_container_belongs_to_its_project_directory() {
    let t = topology();
    let hit = attribute_container("/home/u/projects/worktrees/acme-api/feature-x/./db/", &t)
        .unwrap();
    assert_eq!(hit.workspace_id, "wN");
    assert_eq!(hit.attribution, Attribution::Container);
    assert!(attribute_container("/srv/other", &t).is_none());
    assert!(attribute_container("/home/u/projects/acme-api-old", &t).is_none());
}

#[test]
fn the_home_directory_is_excluded_where_it_is_known() {
    let t = Topology::new(vec![], vec![], Some("/home/u".into()));
    assert_eq!(t.excluded_roots, vec!["/".to_string(), "/home/u".to_string()]);
    let t = Topology::new(vec![], vec![], None);
    assert_eq!(t.excluded_roots, vec!["/".to_string()]);
}

#[test]
fn labels_are_looked_up_by_workspace() {
    let t = topology();
    assert_eq!(t.label_of("wG").as_deref(), Some("blog"));
    assert_eq!(t.label_of("w0"), None);
}
