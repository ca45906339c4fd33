use herdr_services::process::Output;
use herdr_services::scan::docker::{container_of, containers, failure, ps_args, row, PsRow};
use herdr_services::scan::docker::{parse_ports, PublishedPort};
use herdr_services::scan::lsof::{
    cwd_args, cwds_in, listener_args, listeners_in, listening_pids, parse_cwds, parse_listeners,
};
use herdr_services::scan::procfs::{
    assemble, cmdline_to_string, is_well_bracketed, parse_hex_addr, parse_net_tcp, parse_stat,
    socket_inode, ProcEntry, RawListener,
};
use herdr_services::scan::{docker, ps, split_host_port, ProcessInfo, Snapshot};

const PS_SIMULATOR: &str = r#"{"ID":"b08011af0b61","Names":"acme-wt-x-simulator-1","Image":"acme-wt-x:latest","Labels":"com.docker.compose.service=simulator,com.docker.compose.project=acme-wt-x,com.docker.compose.project.working_dir=/Users/u/projects/worktrees/acme-api/x","Ports":"0.0.0.0:32770->4000/tcp, [::]:32770->4000/tcp"}"#;
const PS_TIMESCALE: &str = r#"{"ID":"017c6020022f","Names":"acme-wt-x-timescaledb-1","Image":"timescale/timescaledb","Labels":"com.docker.compose.service=timescaledb,com.docker.compose.project.working_dir=/Users/u/projects/worktrees/acme-api/x","Ports":"8008/tcp, 8081/tcp, 0.0.0.0:32768->5432/tcp"}"#;
const PS_PLAIN: &str =
    r#"{"ID":"deadbeef","Names":"plain","Image":"busybox","Labels":"","Ports":""}"#;
const PS_UDP: &str = r#"{"ID":"cafe","Names":"udp-only","Image":"x","Labels":"","Ports":"0.0.0.0:5353->5353/udp"}"#;

fn ps_output() -> String {
    format!("{PS_SIMULATOR}\n{PS_TIMESCALE}\n{PS_PLAIN}\n{PS_UDP}\n")
}

#[test]
fn parses_compose_labels_and_published_tcp_ports() {
    let cs = docker::parse_ps(&ps_output());
    assert_eq!(
        cs.len(),
        2,
        "containers without published tcp ports are dropped"
    );
    let sim = &cs[0];
    assert_eq!(sim.service, "simulator");
    assert_eq!(sim.project.as_deref(), Some("acme-wt-x"));
    assert_eq!(
        sim.working_dir.as_deref(),
        Some("/Users/u/projects/worktrees/acme-api/x")
    );
    assert_eq!(
        sim.ports,
        vec![PublishedPort {
            host_addr: "*".into(),
            host_port: 32770,
            container_port: 4000
        }]
    );
    let ts = &cs[1];
    assert_eq!(ts.ports.len(), 1);
    assert_eq!(
        (ts.ports[0].host_port, ts.ports[0].container_port),
        (32768, 5432)
    );
    assert!(ts.project.is_none());
}

#[test]
fn container_name_is_the_fallback_service_name() {
    let cs = docker::parse_ps(
        r#"{"ID":"1","Names":"redis-dev","Image":"redis","Labels":"","Ports":"127.0.0.1:6380->6379/tcp"}"#,
    );
    assert_eq!(cs[0].service, "redis-dev");
    assert_eq!(cs[0].ports[0].host_addr, "127.0.0.1");
    assert!(cs[0].working_dir.is_none());
}

#[test]
fn garbage_lines_are_skipped() {
    assert!(docker::parse_ps("not json\n\n").is_empty());
}

#[test]
fn a_row_needs_an_id_and_a_name() {
    assert!(row(r#"{"ID":"1"}"#).is_none());
    assert!(row(r#"{"ID":"1","Names":"n","Ports":7}"#).is_none());
    let r = row(r#" {"ID":"1","Names":"n"} "#).unwrap();
    assert_eq!((r.id.as_str(), r.names.as_str()), ("1", "n"));
    assert_eq!((r.image.as_str(), r.labels.as_str(), r.ports.as_str()), ("", "", ""));
}

#[test]
fn a_container_takes_the_first_of_its_names() {
    let c = container_of(PsRow {
        id: "1".into(),
        names: "a,b".into(),
        image: "i".into(),
        labels: "x=y".into(),
        ports: "0.0.0.0:1->2/tcp".into(),
    })
    .unwrap();
    assert_eq!((c.name.as_str(), c.service.as_str()), ("a", "a"));
    assert!(c.project.is_none());
}

#[test]
fn a_host_port_is_listed_once() {
    let ports = parse_ports("0.0.0.0:1->2/tcp, [::]:1->2/tcp, 127.0.0.1:3->4/tcp");
    assert_eq!(ports.len(), 2);
    assert_eq!((ports[1].host_port, ports[1].container_port), (3, 4));
}

#[test]
fn what_docker_left_behind_is_read_or_refused() {
    let ok = containers(Output {
        success: true,
        status: "exit status: 0".into(),
        stdout: ps_output().into_bytes(),
        stderr: vec![],
    });
    assert_eq!(ok.unwrap().len(), 2);
    let failed = containers(Output {
        success: false,
        status: "exit status: 1".into(),
        stdout: vec![],
        stderr: b"  Cannot connect to the Docker daemon\nmore\n".to_vec(),
    });
    assert_eq!(
        failed.unwrap_err().message(),
        "docker ps: Cannot connect to the Docker daemon"
    );
    let garbled = containers(Output {
        success: true,
        status: "exit status: 0".into(),
        stdout: vec![0xff],
        stderr: vec![],
    });
    let fault = garbled.unwrap_err();
    assert_eq!(fault.text, "docker ps: stdout is not UTF-8");
    assert!(fault.cause.is_some());
    assert_eq!(failure(""), "docker ps: failed");
    assert_eq!(ps_args(), vec!["ps", "--no-trunc", "--format", "{{json .}}"]);
}

const LISTENERS: &str = "p558\ncrapportd\nf15\nn*:49340\nf16\nn*:49340\nf21\nn*:65242\n\
p1297\ncredis-server\nf6\nn127.0.0.1:6379\nf7\nn[::1]:6379\n\
p1315\ncpostgres\nf7\nn[::1]:5432\nf8\nn127.0.0.1:5432\n\
p4242\ncPython\nf3\nn*:8000\n";

#[test]
fn listeners_collapse_duplicate_fds_but_keep_distinct_addresses() {
    let listeners = parse_listeners(LISTENERS);
    let rapportd: Vec<_> = listeners.iter().filter(|l| l.pid == 558).collect();
    assert_eq!(rapportd.len(), 2, "two distinct ports, three fds");
    let redis: Vec<_> = listeners.iter().filter(|l| l.pid == 1297).collect();
    assert_eq!(redis.len(), 2);
    assert_eq!(redis[0].addr, "127.0.0.1");
    assert_eq!(redis[1].addr, "[::1]");
    assert_eq!(redis[0].process_name, "redis-server");
    let py = listeners.iter().find(|l| l.pid == 4242).unwrap();
    assert_eq!(
        (py.port, py.addr.as_str(), py.process_name.as_str()),
        (8000, "*", "Python")
    );
}

#[test]
fn cwd_records_map_pid_to_path() {
    let text = "p1297\nfcwd\nn/opt/homebrew/var/db/redis\np1315\nfcwd\nn/opt/homebrew/var/postgresql@16\n";
    let cwds = parse_cwds(text);
    assert_eq!(cwds[&1297], "/opt/homebrew/var/db/redis");
    assert_eq!(cwds[&1315], "/opt/homebrew/var/postgresql@16");
}

#[test]
fn empty_output_yields_no_listeners() {
    assert!(parse_listeners("").is_empty());
}

#[test]
fn an_output_given_twice_lists_the_same() {
    assert!(LISTENERS.starts_with('p') && LISTENERS.ends_with('\n'));
    let twice = format!("{LISTENERS}{LISTENERS}");
    assert_eq!(parse_listeners(&twice), parse_listeners(LISTENERS));
}

#[test]
fn bytes_of_lsof_are_read_as_text() {
    let listeners = listeners_in(LISTENERS.as_bytes());
    assert_eq!(listeners, parse_listeners(LISTENERS));
    assert_eq!(listening_pids(&listeners), vec![558, 1297, 1315, 4242]);
    let odd = listeners_in(b"p1\nc\xff\nn*:80\n");
    assert_eq!(odd[0].process_name, "\u{fffd}");
    assert_eq!(cwds_in(b"p7\nn/srv\n")[&7], "/srv");
}

#[test]
fn lsof_is_asked_for_listeners_and_directories() {
    assert_eq!(
        listener_args(),
        vec!["-nP", "-iTCP", "-sTCP:LISTEN", "-F", "pcn"]
    );
    assert_eq!(
        cwd_args(&vec![1, 20]),
        vec!["-a", "-p", "1,20", "-d", "cwd", "-Fn"]
    );
}

fn process(ppid: u32) -> ProcessInfo {
    ProcessInfo {
        ppid,
        command: String::new(),
    }
}

#[test]
fn ancestors_walk_stops_at_init_and_cycles() {
    let mut snap = Snapshot::default();
    snap.processes.insert(10, process(5));
    snap.processes.insert(5, process(2));
    snap.processes.insert(2, process(1));
    assert_eq!(snap.ancestors(10), vec![5, 2]);

    snap.processes.insert(7, process(8));
    snap.processes.insert(8, process(7));
    assert!(snap.ancestors(7).len() <= 64);
    assert_eq!(snap.ancestors(7), vec![8]);
}

#[test]
fn host_port_splitting_handles_ipv6_and_wildcard() {
    assert_eq!(split_host_port("*:3000"), Some(("*".into(), 3000)));
    assert_eq!(split_host_port("[::1]:6379"), Some(("[::1]".into(), 6379)));
    assert_eq!(
        split_host_port("127.0.0.1:5432"),
        Some(("127.0.0.1".into(), 5432))
    );
    assert_eq!(split_host_port("nonsense"), None);
}

#[test]
fn a_snapshot_is_looked_up_by_process() {
    let mut snap = Snapshot::default();
    snap.processes.insert(
        3,
        ProcessInfo {
            ppid: 2,
            command: "zsh -l".into(),
        },
    );
    snap.cwds.insert(3, "/srv".into());
    assert_eq!(snap.parent_of(3), Some(2));
    assert_eq!(snap.parent_of(4), None);
    assert_eq!(snap.command_of(3).as_deref(), Some("zsh -l"));
    assert_eq!(snap.cwd_of(3).as_deref(), Some("/srv"));
    assert_eq!(snap.cwd_of(4), None);
}

const NET_TCP: &str = "  sl  local_address rem_address   st tx_queue rx_queue tr tm->when retrnsmt   uid  timeout inode\n\
   0: 0100007F:1F90 00000000:0000 0A 00000000:00000000 00:00000000 00000000  1000        0 123456 1 0000000000000000 100 0 0 10 0\n\
   1: 00000000:0BB8 00000000:0000 0A 00000000:00000000 00:00000000 00000000  1000        0 123457 1 0000000000000000 100 0 0 10 0\n\
   2: 0100007F:E1C6 0100007F:1F90 01 00000000:00000000 00:00000000 00000000  1000        0 123458 1 0000000000000000 20 4 30 10 -1\n";

const NET_TCP6: &str = "  sl  local_address                         remote_address                        st tx_queue rx_queue tr tm->when retrnsmt   uid  timeout inode\n\
   0: 00000000000000000000000001000000:18EB 00000000000000000000000000000000:0000 0A 00000000:00000000 00:00000000 00000000  1000        0 99 1 0000000000000000 100 0 0 10 0\n";

#[test]
fn keeps_only_listen_rows_and_decodes_ipv4() {
    let rows = parse_net_tcp(NET_TCP);
    assert_eq!(rows.len(), 2);
    assert_eq!(
        rows[0],
        RawListener {
            inode: 123456,
            addr: "127.0.0.1".into(),
            port: 8080
        }
    );
    assert_eq!(
        rows[1],
        RawListener {
            inode: 123457,
            addr: "*".into(),
            port: 3000
        }
    );
}

#[test]
fn decodes_ipv6_loopback() {
    let rows = parse_net_tcp(NET_TCP6);
    assert_eq!(
        rows,
        vec![RawListener {
            inode: 99,
            addr: "[::1]".into(),
            port: 6379
        }]
    );
}

#[test]
fn ipv6_addresses_leave_out_their_longest_run_of_zeros() {
    // 2001:db8:0:0:1:0:0:1, as four words of the machine's byte order.
    let (addr, port) = parse_hex_addr("B80D0120000000000000010001000000:1F90").unwrap();
    assert_eq!((addr.as_str(), port), ("[2001:db8::1:0:0:1]", 8080));
    assert_eq!(
        parse_hex_addr("00000000000000000000000000000000:0050").unwrap(),
        ("*".to_string(), 80)
    );
    assert_eq!(parse_hex_addr("0100007F"), None);
    assert_eq!(parse_hex_addr("0100007:1F90"), None);
    assert_eq!(parse_hex_addr("0100007F:XYZ"), None);
}

#[test]
fn stat_handles_parentheses_in_comm() {
    let (ppid, name) = parse_stat("1234 (node (vite)) S 1000 1234 1234 0 -1 4194560 ...").unwrap();
    assert_eq!(ppid, 1000);
    assert_eq!(name, "node (vite)");
}

#[test]
fn a_stat_line_with_its_brackets_the_wrong_way_round_is_recognised() {
    assert!(is_well_bracketed("1 (a) S 1"));
    assert!(is_well_bracketed("no brackets"));
    assert!(!is_well_bracketed("1 )a( S 1"));
    assert!(parse_stat("no brackets").is_none());
}

#[test]
fn cmdline_joins_nul_separated_argv() {
    assert_eq!(
        cmdline_to_string(b"python3\0-m\0http.server\0"),
        "python3 -m http.server"
    );
}

#[test]
fn socket_inode_extracts_number() {
    assert_eq!(socket_inode("socket:[4242]"), Some(4242));
    assert_eq!(socket_inode("/dev/null"), None);
}

#[test]
fn processes_are_joined_with_their_sockets() {
    let entries = vec![
        ProcEntry {
            name: "4242".into(),
            stat: Some("4242 (python3) S 77 4242 4242 0 -1 0".into()),
            cmdline: Some(b"python3\0-m\0http.server\0".to_vec()),
            links: vec!["socket:[123457]".into(), "socket:[123457]".into(), "/dev/null".into()],
            cwd: Some("/srv/app".into()),
        },
        ProcEntry {
            name: "self".into(),
            stat: Some(") no process (".into()),
            cmdline: None,
            links: vec![],
            cwd: None,
        },
        ProcEntry {
            name: "77".into(),
            stat: Some("77 (bash) S 1 77 77 0 -1 0".into()),
            cmdline: None,
            links: vec![],
            cwd: Some("/".into()),
        },
    ];
    let snap = assemble(&entries, &parse_net_tcp(NET_TCP));
    assert_eq!(snap.listeners.len(), 1);
    let l = &snap.listeners[0];
    assert_eq!(
        (l.pid, l.port, l.addr.as_str(), l.process_name.as_str()),
        (4242, 3000, "*", "python3")
    );
    assert_eq!(snap.cwds[&4242], "/srv/app");
    assert!(!snap.cwds.contains_key(&77));
    assert_eq!(snap.processes[&4242].ppid, 77);
    assert_eq!(snap.processes[&4242].command, "python3 -m http.server");
    assert_eq!(snap.processes.len(), 2);
    assert_eq!(snap.ancestors(4242), vec![77]);
}

#[test]
fn parses_padded_rows_and_skips_garbage() {
    let text = "  181     1 /System/Library/CoreServices/loginwindow console\n\
                1297     1 /opt/homebrew/opt/redis/bin/redis-server 127.0.0.1:6379\n\
                PID PPID COMMAND\n\
                66860 51260 omp\n";
    let table = ps::parse_ps(text);
    assert_eq!(table.len(), 3);
    assert_eq!(table[&1297].ppid, 1);
    assert_eq!(
        table[&1297].command,
        "/opt/homebrew/opt/redis/bin/redis-server 127.0.0.1:6379"
    );
    assert_eq!(table[&66860].ppid, 51260);
    assert_eq!(table[&66860].command, "omp");
    assert_eq!(ps::table_args(), vec!["-axo", "pid=,ppid=,command="]);
}
