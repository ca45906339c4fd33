use herdr_services::attribute::Attribution;
use herdr_services::cli::{
    add_request, daemon_line, edit, list_line, parse, Edit, Invocation, USAGE,
};
use herdr_services::daemon::Request;
use herdr_services::sidebar::{install_block, managed_block};
use herdr_services::state::{Liveness, Service, Source};

fn args(words: &[&str]) -> Vec<String> {
    words.iter().map(|w| w.to_string()).collect()
}

#[test]
fn commands_and_flags_are_recognised() {
    let cases = vec![
        (vec!["daemon"], Invocation::Daemon { verbose: false }),
        (vec!["daemon", "--verbose"], Invocation::Daemon { verbose: true }),
        (
            vec!["ensure-daemon", "x", "--verbose"],
            Invocation::EnsureDaemon { verbose: true },
        ),
        (vec!["rescan"], Invocation::Rescan),
        (vec!["open-picker"], Invocation::OpenPicker { verbose: false }),
        (vec!["picker"], Invocation::Picker),
        (
            vec!["configure"],
            Invocation::Configure {
                remove: false,
                print: false,
                reload: true,
            },
        ),
        (
            vec!["configure", "--remove", "--no-reload"],
            Invocation::Configure {
                remove: true,
                print: false,
                reload: false,
            },
        ),
        (
            vec!["configure", "--print"],
            Invocation::Configure {
                remove: false,
                print: true,
                reload: true,
            },
        ),
        (
            vec!["add", "Storybook", ":6006", "--workspace", "w3"],
            Invocation::Add {
                label: "Storybook".into(),
                target: ":6006".into(),
                workspace: Some("w3".into()),
            },
        ),
        (
            vec!["add", "Storybook", ":6006", "--workspace"],
            Invocation::Add {
                label: "Storybook".into(),
                target: ":6006".into(),
                workspace: None,
            },
        ),
        (
            vec!["remove", "--label", "Storybook"],
            Invocation::Remove {
                label: "Storybook".into(),
            },
        ),
        (
            vec!["list", "--json"],
            Invocation::List {
                workspace: None,
                json: true,
            },
        ),
        (vec!["doctor"], Invocation::Doctor),
        (vec!["--version"], Invocation::Version),
    ];
    for (words, want) in cases {
        assert_eq!(parse(&args(&words)), Ok(want));
    }
}

#[test]
fn anything_else_is_answered_with_the_usage() {
    assert_eq!(parse(&vec![]), Err(USAGE.to_string()));
    assert_eq!(
        parse(&args(&["reboot"])),
        Err(format!("unknown command `reboot`\n{USAGE}"))
    );
    assert_eq!(
        parse(&args(&["add", "x"])),
        Err(format!("add needs a label and a target\n{USAGE}"))
    );
    assert_eq!(
        parse(&args(&["remove", "--label"])),
        Err(format!("remove needs --label\n{USAGE}"))
    );
}

#[test]
fn a_registration_needs_a_target_and_a_workspace() {
    assert_eq!(
        add_request("API".into(), ":3000", None, Some("w1".into())),
        Ok(Request::Add {
            workspace: "w1".into(),
            label: "API".into(),
            port: 3000,
            url: None
        })
    );
    assert_eq!(
        add_request("API".into(), "http://h:1/x", Some("w2".into()), Some("w1".into())),
        Ok(Request::Add {
            workspace: "w2".into(),
            label: "API".into(),
            port: 1,
            url: Some("http://h:1/x".into())
        })
    );
    assert_eq!(
        add_request("API".into(), "x", None, None),
        Err("`x` is not `:PORT` or a `scheme://host:port` URL".to_string())
    );
    assert_eq!(
        add_request("API".into(), ":1", None, None),
        Err("no workspace: pass --workspace or run inside herdr".to_string())
    );
}

#[test]
fn the_configuration_is_edited_or_left() {
    assert_eq!(edit("[ui]\n", true, 8), Edit::Nothing);
    let installed = install_block("[ui]\n", 2).unwrap();
    assert_eq!(edit("[ui]\n", false, 2), Edit::Write(installed.clone()));
    assert_eq!(edit(&installed, true, 2), Edit::Write("[ui]\n".into()));
    assert_eq!(
        edit("[ui.sidebar.spaces]\n", false, 2),
        Edit::Refused(
            "config already defines [ui.sidebar.spaces] outside the herdr-services block".into()
        )
    );
    assert_eq!(edit("", false, 1), Edit::Write(managed_block(1)));
}

#[test]
fn a_started_daemon_is_reported() {
    assert_eq!(daemon_line(12, 0), "herdr-services daemon pid 12");
    assert_eq!(
        daemon_line(12, 3),
        "herdr-services daemon pid 12 (removed 3 stale session dir(s))"
    );
}

#[test]
fn services_are_listed_with_their_urls() {
    let s = Service {
        workspace_id: "w1".into(),
        port: 3000,
        host_hint: "*".into(),
        pid: Some(1),
        container: None,
        process_name: "puma".into(),
        argv_summary: String::new(),
        cwd: None,
        url: "http://localhost:3000".into(),
        label: None,
        source: Source::Detected,
        attribution: Attribution::Command,
        first_seen_ms: 0,
        last_seen_ms: 0,
        liveness: Liveness::Up,
        missed_scans: 0,
        pinned_url: None,
    };
    assert_eq!(list_line(&s), "w1  ● puma:3000  http://localhost:3000");
}
