use herdr_services::advertise::URL_PATTERN;
use herdr_services::herdr::{
    as_pid, cli_result, event_name, herdr_config_path, matched_output, parse_field, read_ack,
    read_result, read_shell_pid, runtime_dir, session_key, socket_call, socket_result, subscribe,
    subscribe_output, subscribed, Herdr, PluginDirs,
};
use herdr_services::json::{as_text, member, Json};
use serde_json::Value;

#[test]
fn event_name_reads_pushed_frames_only() {
    let frame = r#"{"data":{"pane":{"pane_id":"w1:p3"}},"event":"pane_created"}"#;
    assert_eq!(event_name(frame).as_deref(), Some("pane_created"));
    assert_eq!(
        event_name(r#"{"id":"e","result":{"type":"subscription_started"}}"#),
        None
    );
    assert_eq!(event_name("not json"), None);
}

#[test]
fn session_key_is_stable_and_path_sensitive() {
    let a = session_key(b"/a/herdr.sock");
    assert_eq!(a, session_key(b"/a/herdr.sock"));
    assert_ne!(a, session_key(b"/b/herdr.sock"));
    assert_eq!(a.len(), 16);
}

#[test]
fn session_keys_are_fnv_hashes() {
    assert_eq!(session_key(b""), "cbf29ce484222325");
    assert_eq!(session_key(b"a"), "af63dc4c8601ec8c");
    assert_eq!(session_key(b"foobar"), "85944171f73967e8");
}

fn herdr() -> Herdr {
    Herdr::from_env(None, Some("/run/h.sock".into()), 4000).unwrap()
}

#[test]
fn the_session_comes_from_the_environment() {
    let h = herdr();
    assert_eq!((h.bin.as_str(), h.socket.as_str(), h.timeout_ms), ("herdr", "/run/h.sock", 4000));
    let h = Herdr::from_env(Some("/bin/h".into()), Some("s".into()), 1).unwrap();
    assert_eq!(h.bin, "/bin/h");
    assert_eq!(
        Herdr::from_env(None, None, 1),
        Err("HERDR_SOCKET_PATH is not set; run inside herdr".to_string())
    );
}

#[test]
fn a_listing_is_taken_from_the_result() {
    let list = herdr().workspaces();
    assert_eq!(list.args, vec!["workspace", "list"]);
    let out = r#"{"id":"x","result":{"workspaces":[{"workspace_id":"w1"}]}}"#;
    assert_eq!(list.read(out).unwrap(), r#"[{"workspace_id":"w1"}]"#);
    let panes = herdr().panes();
    assert_eq!(panes.args, vec!["pane", "list"]);
    assert_eq!(
        panes.read(out).unwrap_err().message(),
        "herdr reply has no `panes`"
    );
    assert_eq!(
        panes.read("").unwrap_err().message(),
        "herdr reply has no `panes`"
    );
}

#[test]
fn replies_that_hold_no_result_are_faults() {
    let args = vec!["pane".to_string(), "list".to_string()];
    assert_eq!(cli_result(&args, " \n"), Ok("null".to_string()));
    let fault = cli_result(&args, "oops").unwrap_err();
    assert_eq!(fault.text, "herdr pane list: reply is not JSON");
    assert!(fault.cause.is_some());
    assert_eq!(
        cli_result(&args, r#"{"error":{"code":3}}"#).unwrap_err().message(),
        r#"herdr pane list: {"code":3}"#
    );
    assert_eq!(
        cli_result(&args, r#"{"id":"x"}"#).unwrap_err().message(),
        "herdr pane list: reply has no result"
    );
    let fault = socket_result("ping", "oops").unwrap_err();
    assert_eq!(fault.text, "socket reply is not JSON");
    assert_eq!(
        socket_result("ping", r#"{"error":"no"}"#).unwrap_err().message(),
        "herdr ping: \"no\""
    );
    assert_eq!(
        socket_result("ping", "{\"result\":{\"type\":\"pong\"}}\n").unwrap(),
        r#"{"type":"pong"}"#
    );
}

#[test]
fn the_parts_of_a_reply_decide() {
    let reply = Json::Object(vec![
        ("error".to_string(), "1".to_string()),
        ("result".to_string(), "2".to_string()),
    ]);
    assert_eq!(
        read_result(&reply, "no".into(), "c").unwrap_err().message(),
        "herdr c: 1"
    );
    let reply = Json::Object(vec![("result".to_string(), "2".to_string())]);
    assert_eq!(read_result(&reply, "no".into(), "c"), Ok("2".to_string()));
    let fault = read_result(&Json::Malformed("why".into()), "no".into(), "c").unwrap_err();
    assert_eq!(fault.message(), "no: why");
    assert_eq!(
        read_result(&Json::Null, "no".into(), "c").unwrap_err().message(),
        "herdr c: reply has no result"
    );
    assert!(parse_field(&Json::List(vec![]), "x").is_err());
    assert_eq!(member(&reply, "result").as_deref(), Some("2"));
    assert_eq!(member(&reply, "error"), None);
    assert_eq!(as_text(Json::Text("t".into())).as_deref(), Some("t"));
    assert_eq!(as_text(Json::Bool(true)), None);
}

#[test]
fn shell_pids_are_numbers() {
    let h = herdr();
    let args = h.shell_pid("w1:p1");
    assert_eq!(args, vec!["pane", "process-info", "--pane", "w1:p1"]);
    let reply = |pid: &str| format!(r#"{{"result":{{"process_info":{{"shell_pid":{pid}}}}}}}"#);
    assert_eq!(read_shell_pid(&args, &reply("42")), Ok(Some(42)));
    assert_eq!(read_shell_pid(&args, &reply("4294967298")), Ok(Some(2)));
    assert_eq!(read_shell_pid(&args, &reply("-1")), Ok(None));
    assert_eq!(read_shell_pid(&args, &reply("null")), Ok(None));
    assert_eq!(read_shell_pid(&args, r#"{"result":{}}"#), Ok(None));
    assert!(read_shell_pid(&args, "x").is_err());
    assert_eq!(as_pid(&Json::Number(Some(7))), Some(7));
    assert_eq!(as_pid(&Json::Number(None)), None);
}

#[test]
fn reports_set_and_clear_in_one_call() {
    let h = herdr();
    assert_eq!(h.report_metadata("w1", "src", &vec![], &vec![], 9), None);
    let set = vec![("svc_1".to_string(), "● puma:3000".to_string())];
    let clear = vec!["svc_2".to_string()];
    assert_eq!(
        h.report_metadata("w1", "src", &set, &clear, 90_000).unwrap(),
        vec![
            "workspace",
            "report-metadata",
            "w1",
            "--source",
            "src",
            "--token",
            "svc_1=● puma:3000",
            "--clear-token",
            "svc_2",
            "--ttl-ms",
            "90000"
        ]
    );
    assert_eq!(
        h.report_metadata("w1", "src", &vec![], &clear, 0).unwrap(),
        vec!["workspace", "report-metadata", "w1", "--source", "src", "--clear-token", "svc_2"]
    );
}

#[test]
fn panes_are_opened_in_a_workspace() {
    let h = herdr();
    let mut want = vec![
        "plugin",
        "pane",
        "open",
        "--plugin",
        "id",
        "--entrypoint",
        "picker",
        "--focus",
    ];
    assert_eq!(h.open_plugin_pane("id", "picker", &None), want);
    want.extend(["--workspace", "w1"]);
    assert_eq!(h.open_plugin_pane("id", "picker", &Some("w1".into())), want);
    assert_eq!(h.reload_config(), vec!["server", "reload-config"]);
}

fn parsed(line: &str) -> Value {
    assert!(line.ends_with('\n'));
    serde_json::from_str(line.trim()).expect("JSON")
}

#[test]
fn calls_are_lines_of_json() {
    assert_eq!(
        socket_call("ping"),
        "{\"id\":\"herdr-services\",\"method\":\"ping\",\"params\":{}}\n"
    );
    let odd = parsed(&socket_call("a\"b\\c\n"));
    assert_eq!(odd["method"], "a\"b\\c\n");
}

#[test]
fn subscriptions_name_their_events() {
    let line = subscribe(&vec!["pane.created".to_string(), "pane.closed".to_string()]);
    assert_eq!(
        line,
        "{\"id\":\"herdr-services-events\",\"method\":\"events.subscribe\",\"params\":{\"subscriptions\":[{\"type\":\"pane.created\"},{\"type\":\"pane.closed\"}]}}\n"
    );
    let value = parsed(&subscribe_output(&vec!["w1:p1".to_string(), "w1:p2".to_string()]));
    let subs = value["params"]["subscriptions"].as_array().unwrap();
    assert_eq!(subs.len(), 2);
    assert_eq!(subs[1]["pane_id"], "w1:p2");
    assert_eq!(subs[0]["type"], "pane.output_matched");
    assert_eq!(subs[0]["source"], "recent");
    assert_eq!(subs[0]["strip_ansi"], true);
    assert_eq!(subs[0]["match"]["regex"], URL_PATTERN);
}

#[test]
fn a_subscription_is_acknowledged() {
    assert_eq!(subscribed(r#"{"result":{}}"#), Ok(()));
    assert_eq!(
        subscribed(r#"{"error":"unknown"}"#).unwrap_err().message(),
        "events.subscribe: \"unknown\""
    );
    assert_eq!(subscribed("x").unwrap_err().text, "subscribe ack is not JSON");
    assert_eq!(read_ack(&Json::Null), Ok(()));
    assert_eq!(
        read_ack(&Json::Malformed("eof".into())).unwrap_err().message(),
        "subscribe ack is not JSON: eof"
    );
}

#[test]
fn matched_output_names_its_pane() {
    let frame = r#"{"event":"pane_output_matched","data":{"pane_id":"w1:p1","matched_line":"http://localhost:3000"}}"#;
    assert_eq!(
        matched_output(frame),
        Some(("w1:p1".to_string(), "http://localhost:3000".to_string()))
    );
    assert_eq!(matched_output(r#"{"event":"x","data":{"pane_id":"w1:p1"}}"#), None);
    assert_eq!(matched_output("{}"), None);
}

#[test]
fn each_session_has_its_own_directory() {
    let d = PluginDirs::from_env(Some("/state".into()), None, b"foobar").unwrap();
    assert_eq!(d.key, "85944171f73967e8");
    assert_eq!(d.state, "/state/sessions/85944171f73967e8");
    assert_eq!(d.config, "/state");
    assert_eq!(d.sessions_dir(), "/state/sessions");
    assert_eq!(d.state_file(), "/state/sessions/85944171f73967e8/state.json");
    assert_eq!(d.pid_file(), "/state/sessions/85944171f73967e8/daemon.pid");
    assert_eq!(d.log_file(), "/state/sessions/85944171f73967e8/daemon.log");
    assert_eq!(
        d.socket_marker(),
        "/state/sessions/85944171f73967e8/herdr.sock.path"
    );
    assert_eq!(d.config_file(), "/state/config.toml");
    assert_eq!(d.control_socket("/run/x/"), "/run/x/85944171f73967e8.sock");
    let d = PluginDirs::from_env(Some("/state".into()), Some("/etc/h".into()), b"a").unwrap();
    assert_eq!(d.config_file(), "/etc/h/config.toml");
    assert_eq!(
        PluginDirs::from_env(None, None, b"a"),
        Err("HERDR_PLUGIN_STATE_DIR is not set; run as a herdr plugin".to_string())
    );
}

#[test]
fn directories_follow_the_environment() {
    assert_eq!(
        runtime_dir(&Some("/run/user/1".into()), "/tmp", 1),
        "/run/user/1/herdr-services"
    );
    assert_eq!(runtime_dir(&None, "/tmp", 501), "/tmp/herdr-services-501");
    assert_eq!(
        herdr_config_path(Some("/c.toml".into()), &Some("/x".into()), &None).unwrap(),
        "/c.toml"
    );
    assert_eq!(
        herdr_config_path(None, &Some("/x".into()), &Some("/h".into())).unwrap(),
        "/x/herdr/config.toml"
    );
    assert_eq!(
        herdr_config_path(None, &None, &Some("/h".into())).unwrap(),
        "/h/.config/herdr/config.toml"
    );
    assert_eq!(
        herdr_config_path(None, &None, &None),
        Err("HOME is not set".to_string())
    );
}
