//! The checkup: what it says of the environment, and every listener with its
//! owner as a table.

use vstd::prelude::*;

use crate::advertise::Advertisements;
use crate::attribute;
use crate::attribute::{
    label_in, owner_of, Attribution, AttributionView, PaneView, Topology, TopologyView,
};
use crate::config::Config;
use crate::number;
use crate::number::decimal_of;
use crate::observe;
use crate::observe::{admitted, Scene};
use crate::order;
use crate::order::sorted;
use crate::scan::{Listener, ListenerView, Snapshot, SnapshotView};
use crate::seqs;
use crate::sidebar;
use crate::sidebar::{foreign_table, has_opening};
use crate::state::Liveness;
use crate::text;
use crate::text::{lines_of, padded, texts, truncated};

verus! {

/// How many checks have failed so far.
#[derive(Debug, PartialEq, Eq)]
pub struct Checkup {
    pub failures: usize,
}

impl Default for Checkup {
    fn default() -> (r: Self)
        ensures
            r.failures == 0,
    {
        Checkup { failures: 0 }
    }
}

/// The line of a check.
pub open spec fn check_line(ok: bool, name: Seq<char>, detail: Seq<char>) -> Seq<char> {
    (if ok {
        "OK  "@
    } else {
        "FAIL"@
    }) + " "@ + name + ": "@ + detail
}

impl Checkup {
    /// Notes a check and gives its line.
    pub fn check(&mut self, ok: bool, name: &str, detail: &str) -> (r: String)
        requires
            old(self).failures < usize::MAX,
        ensures
            r@ == check_line(ok, name@, detail@),
            final(self).failures == old(self).failures + if ok {
                0int
            } else {
                1
            },
    {
        let mut out: String = if ok {
            "OK  ".to_owned()
        } else {
            "FAIL".to_owned()
        };
        text::push_text(&mut out, " ");
        text::push_text(&mut out, name);
        text::push_text(&mut out, ": ");
        text::push_text(&mut out, detail);
        if !ok {
            self.failures = self.failures + 1;
        }
        out
    }

    /// Notes whether an environment variable is set; those that only a plugin
    /// gets need not be.
    pub fn check_variable(&mut self, name: &str, value: &Option<String>) -> (r: String)
        requires
            old(self).failures < usize::MAX,
        ensures
            r@ == check_line(
                variable_ok(name@, value is Some),
                name@,
                match value {
                    Some(v) => v@,
                    None => "(unset)"@,
                },
            ),
            final(self).failures == old(self).failures + if variable_ok(name@, value is Some) {
                0int
            } else {
                1
            },
    {
        let ok = value.is_some() || text::starts_with(name, "HERDR_PLUGIN");
        match value {
            Some(v) => self.check(ok, name, v.as_str()),
            None => self.check(ok, name, "(unset)"),
        }
    }

    /// How the checkup ends.
    pub fn finish(&self) -> (r: Result<(), String>)
        ensures
            r is Ok <==> self.failures == 0,
            r matches Err(m) ==> m@ == decimal_of(self.failures as nat) + " check(s) failed"@,
    {
        if self.failures > 0 {
            let mut m: String = number::decimal(self.failures as u64);
            text::push_text(&mut m, " check(s) failed");
            return Err(m);
        }
        Ok(())
    }
}

/// An environment variable is as it should be.
pub open spec fn variable_ok(name: Seq<char>, set: bool) -> bool {
    set || "HERDR_PLUGIN"@.is_prefix_of(name)
}

/// The environment variables that are looked at.
pub fn variables() -> (r: Vec<String>)
    ensures
        texts(r@) == seq![
            "HERDR_BIN_PATH"@,
            "HERDR_SOCKET_PATH"@,
            "HERDR_PLUGIN_STATE_DIR"@,
            "HERDR_PLUGIN_CONFIG_DIR"@,
        ],
{
    let r: Vec<String> = vec![
        "HERDR_BIN_PATH".to_owned(),
        "HERDR_SOCKET_PATH".to_owned(),
        "HERDR_PLUGIN_STATE_DIR".to_owned(),
        "HERDR_PLUGIN_CONFIG_DIR".to_owned(),
    ];
    assert(texts(r@) =~= seq![
        "HERDR_BIN_PATH"@,
        "HERDR_SOCKET_PATH"@,
        "HERDR_PLUGIN_STATE_DIR"@,
        "HERDR_PLUGIN_CONFIG_DIR"@,
    ]);
    r
}

/// What a ping was answered, in words.
pub fn ping_detail(version: &str, protocol: u32) -> (r: String)
    ensures
        r@ == "version "@ + version@ + " protocol "@ + decimal_of(protocol as nat),
{
    let mut out: String = "version ".to_owned();
    text::push_text(&mut out, version);
    text::push_text(&mut out, " protocol ");
    text::push_text(&mut out, number::decimal(protocol as u64).as_str());
    out
}

/// Whether a daemon runs, in words.
pub fn daemon_detail(pid: Option<u32>) -> (r: String)
    ensures
        r@ == (match pid {
            Some(p) => "running, pid "@ + decimal_of(p as nat),
            None => "not running (ensure-daemon starts it)"@,
        }),
{
    match pid {
        Some(p) => {
            let mut out: String = "running, pid ".to_owned();
            text::push_text(&mut out, number::decimal(p as u64).as_str());
            out
        },
        None => "not running (ensure-daemon starts it)".to_owned(),
    }
}

/// What a scan found, in words.
pub fn scan_detail(backend: &str, listeners: usize, processes: usize, ms: u64) -> (r: String)
    ensures
        r@ == backend@ + " backend, "@ + decimal_of(listeners as nat) + " listeners, "@
            + decimal_of(processes as nat) + " processes in "@ + decimal_of(ms as nat) + " ms"@,
{
    let mut out: String = backend.to_owned();
    text::push_text(&mut out, " backend, ");
    text::push_text(&mut out, number::decimal(listeners as u64).as_str());
    text::push_text(&mut out, " listeners, ");
    text::push_text(&mut out, number::decimal(processes as u64).as_str());
    text::push_text(&mut out, " processes in ");
    text::push_text(&mut out, number::decimal(ms).as_str());
    text::push_text(&mut out, " ms");
    out
}

/// Who owns the sidebar's rows in a configuration, in words.
pub open spec fn rows_owner(lines: Seq<Seq<char>>) -> Seq<char> {
    if has_opening(lines) {
        "managed [ui.sidebar.spaces] block installed"@
    } else if foreign_table(lines) {
        "[ui.sidebar.spaces] owned by user or another plugin; run `configure --print` and paste"@
    } else {
        "no sidebar rows yet; run the `configure` action"@
    }
}

/// Who owns the sidebar's rows in the configuration at this path, in words.
pub fn config_detail(path: &str, config: &str) -> (r: String)
    ensures
        r@ == path@ + " — "@ + rows_owner(lines_of(config@)),
{
    let mut out: String = path.to_owned();
    text::push_text(&mut out, " — ");
    if sidebar::has_block(config) {
        text::push_text(&mut out, "managed [ui.sidebar.spaces] block installed");
    } else if sidebar::foreign_spaces_table(config) {
        text::push_text(
            &mut out,
            "[ui.sidebar.spaces] owned by user or another plugin; run `configure --print` and paste",
        );
    } else {
        text::push_text(&mut out, "no sidebar rows yet; run the `configure` action");
    }
    out
}

/// The panes whose shell is known.
pub open spec fn has_shell() -> spec_fn(PaneView) -> bool {
    |p: PaneView| p.shell_pid is Some
}

/// How many of a topology's panes have a shell that is known.
pub fn panes_with_shell(t: &Topology) -> (r: usize)
    ensures
        r == t@.panes.filter(has_shell()).len(),
        r <= t.panes@.len(),
{
    let ghost all = t@.panes;
    let mut n: usize = 0;
    let mut i: usize = 0;
    proof {
        reveal(Seq::filter);
        assert(all.take(0).filter(has_shell()).len() == 0);
    }
    while i < t.panes.len()
        invariant
            i <= t.panes@.len(),
            n <= i,
            all == t@.panes,
            n == all.take(i as int).filter(has_shell()).len(),
        decreases t.panes.len() - i,
    {
        proof {
            seqs::lemma_filter_step(all, has_shell(), i as int);
            assert(all[i as int] == t.panes@[i as int]@);
        }
        if t.panes[i].shell_pid.is_some() {
            n = n + 1;
        }
        i = i + 1;
    }
    assert(all.take(i as int) =~= all);
    n
}

impl Checkup {
    /// Notes whether any pane's shell is known, where there are panes.
    pub fn check_shells(&mut self, t: &Topology) -> (r: String)
        requires
            old(self).failures < usize::MAX,
        ensures
            r@ == check_line(
                shells_ok(t@),
                "pane shell pids"@,
                decimal_of(t@.panes.filter(has_shell()).len()) + "/"@ + decimal_of(t@.panes.len())
                    + " panes"@,
            ),
            final(self).failures == old(self).failures + if shells_ok(t@) {
                0int
            } else {
                1
            },
    {
        assert(t@.panes.len() == t.panes@.len());
        let n: usize = panes_with_shell(t);
        let mut detail: String = number::decimal(n as u64);
        text::push_text(&mut detail, "/");
        text::push_text(&mut detail, number::decimal(t.panes.len() as u64).as_str());
        text::push_text(&mut detail, " panes");
        self.check(n > 0 || t.panes.len() == 0, "pane shell pids", detail.as_str())
    }
}

/// Some pane's shell is known, or there is no pane.
pub open spec fn shells_ok(t: TopologyView) -> bool {
    t.panes.filter(has_shell()).len() > 0 || t.panes.len() == 0
}

// ---------------------------------------------------------------------------
// The table
// ---------------------------------------------------------------------------

/// A row of the table, but for whether the listener can be reached.
#[derive(Debug, PartialEq, Eq)]
pub struct Entry {
    pub port: u16,
    pub pid: u32,
    pub addr: String,
    pub process_name: String,
    pub workspace: String,
    pub via: String,
}

/// An [`Entry`] with its texts as characters.
#[verifier::ext_equal]
pub struct EntryView {
    pub port: u16,
    pub pid: u32,
    pub addr: Seq<char>,
    pub process_name: Seq<char>,
    pub workspace: Seq<char>,
    pub via: Seq<char>,
}

impl View for Entry {
    type V = EntryView;

    open spec fn view(&self) -> EntryView {
        EntryView {
            port: self.port,
            pid: self.pid,
            addr: self.addr@,
            process_name: self.process_name@,
            workspace: self.workspace@,
            via: self.via@,
        }
    }
}

/// The rows of a vector, with their texts as characters.
pub open spec fn entries_view(v: Seq<Entry>) -> Seq<EntryView> {
    v.map_values(|e: Entry| e@)
}

/// By port, then by process.
pub open spec fn by_port() -> spec_fn(ListenerView, ListenerView) -> bool {
    |a: ListenerView, b: ListenerView| a.port < b.port || (a.port == b.port && a.pid <= b.pid)
}

/// The listeners without those that have the port and process of the one before.
pub open spec fn once_each(ls: Seq<ListenerView>) -> Seq<ListenerView>
    decreases ls.len(),
{
    if ls.len() == 0 {
        seq![]
    } else {
        let out = once_each(ls.drop_last());
        let l = ls.last();
        if out.len() > 0 && out.last().port == l.port && out.last().pid == l.pid {
            out
        } else {
            out.push(l)
        }
    }
}

/// How a listener came to its workspace, in words.
pub open spec fn via_of(a: AttributionView) -> Seq<char> {
    match a {
        AttributionView::Pane { pane_id } => "pane "@ + pane_id,
        AttributionView::Cwd => "cwd"@,
        AttributionView::Command => "command"@,
        AttributionView::Container => "container"@,
        AttributionView::Manual => "manual"@,
    }
}

/// The row of a listener.
pub open spec fn entry_of(l: ListenerView, snap: SnapshotView, t: TopologyView) -> EntryView {
    let (workspace, via) = match owner_of(l.pid, snap, t) {
        Some(a) => (
            a.workspace_id + " ("@ + (match label_in(t.workspaces, a.workspace_id) {
                Some(label) => label,
                None => seq![],
            }) + ")"@,
            via_of(a.attribution),
        ),
        None => ("—"@, "unattributed"@),
    };
    EntryView {
        port: l.port,
        pid: l.pid,
        addr: l.addr,
        process_name: l.process_name,
        workspace,
        via,
    }
}

/// The rows of these listeners.
pub open spec fn entries_of(ls: Seq<ListenerView>, sc: Scene) -> Seq<EntryView>
    decreases ls.len(),
{
    if ls.len() == 0 {
        seq![]
    } else {
        let out = entries_of(ls.drop_last(), sc);
        if admitted(ls.last(), sc) {
            out.push(entry_of(ls.last(), sc.snap, sc.topo))
        } else {
            out
        }
    }
}

/// The table of a scan.
pub open spec fn table_of(sc: Scene) -> Seq<EntryView> {
    entries_of(once_each(sorted(sc.snap.listeners, by_port())), sc)
}

fn copies(ls: &Vec<Listener>) -> (r: Vec<Listener>)
    ensures
        r@.map_values(|l: Listener| l@) == ls@.map_values(|l: Listener| l@),
{
    let mut out: Vec<Listener> = Vec::new();
    let mut i: usize = 0;
    while i < ls.len()
        invariant
            i <= ls@.len(),
            out@.len() == i,
            forall|j: int| 0 <= j < i ==> (#[trigger] out@[j])@ == ls@[j]@,
        decreases ls.len() - i,
    {
        let l = &ls[i];
        let copy = Listener {
            pid: l.pid,
            port: l.port,
            addr: l.addr.clone(),
            process_name: l.process_name.clone(),
        };
        assert(copy@ =~= l@);
        out.push(copy);
        i = i + 1;
    }
    assert(out@.map_values(|l: Listener| l@) =~= ls@.map_values(|l: Listener| l@));
    out
}

fn via(a: &Attribution) -> (r: String)
    ensures
        r@ == via_of(a@),
{
    match a {
        Attribution::Pane { pane_id } => {
            let mut out: String = "pane ".to_owned();
            text::push_text(&mut out, pane_id.as_str());
            out
        },
        Attribution::Cwd => "cwd".to_owned(),
        Attribution::Command => "command".to_owned(),
        Attribution::Container => "container".to_owned(),
        Attribution::Manual => "manual".to_owned(),
    }
}

fn entry(l: &Listener, snapshot: &Snapshot, topology: &Topology) -> (r: Entry)
    ensures
        r@ == entry_of(l@, snapshot@, topology@),
{
    let (workspace, via): (String, String) = match attribute::attribute(
        l.pid,
        snapshot,
        topology,
    ) {
        Some(hit) => {
            let mut ws: String = hit.workspace_id.clone();
            text::push_text(&mut ws, " (");
            let ghost front = ws@;
            if let Some(label) = topology.label_of(hit.workspace_id.as_str()) {
                text::push_text(&mut ws, label.as_str());
            }
            assert(ws@ =~= front + (match label_in(topology@.workspaces, hit@.workspace_id) {
                Some(label) => label,
                None => seq![],
            }));
            text::push_text(&mut ws, ")");
            (ws, via(&hit.attribution))
        },
        None => ("—".to_owned(), "unattributed".to_owned()),
    };
    Entry {
        port: l.port,
        pid: l.pid,
        addr: l.addr.clone(),
        process_name: l.process_name.clone(),
        workspace,
        via,
    }
}

fn by_place(ls: &Vec<Listener>) -> (r: Vec<Listener>)
    ensures
        r@.map_values(|l: Listener| l@) == sorted(ls@.map_values(|l: Listener| l@), by_port()),
{
    let ghost view = |l: Listener| l@;
    let ghost le = |a: Listener, b: Listener| by_port()(a@, b@);
    let all = copies(ls);
    proof {
        order::lemma_sorted_map(all@, view, le, by_port());
    }
    order::sort(
        all,
        |a: &Listener, b: &Listener| -> (c: bool)
            ensures
                c == by_port()(a@, b@)
            { a.port < b.port || (a.port == b.port && a.pid <= b.pid) },
        Ghost(le),
    )
}

/// Every listener that passes the filters of a scan, with its owner, by port.
pub fn table(
    config: &Config,
    ads: &Advertisements,
    snapshot: &Snapshot,
    topology: &Topology,
) -> (r: Vec<Entry>)
    ensures
        entries_view(r@) == table_of(
            (Scene { config: *config, snap: snapshot@, topo: topology@, ads: ads@ }),
        ),
{
    let rows = by_place(&snapshot.listeners);
    let ghost all = rows@.map_values(|l: Listener| l@);
    let ghost sc = Scene { config: *config, snap: snapshot@, topo: topology@, ads: ads@ };
    let mut out: Vec<Entry> = Vec::new();
    let mut last: Option<(u16, u32)> = None;
    let mut i: usize = 0;
    assert(all.take(0).len() == 0);
    assert(entries_view(out@) =~= entries_of(once_each(all.take(0)), sc));
    while i < rows.len()
        invariant
            i <= rows@.len(),
            all == rows@.map_values(|l: Listener| l@),
            sc == (Scene { config: *config, snap: snapshot@, topo: topology@, ads: ads@ }),
            entries_view(out@) == entries_of(once_each(all.take(i as int)), sc),
            last == (if once_each(all.take(i as int)).len() == 0 {
                None
            } else {
                let l = once_each(all.take(i as int)).last();
                Some((l.port, l.pid))
            }),
        decreases rows.len() - i,
    {
        let l = &rows[i];
        let ghost before = once_each(all.take(i as int));
        proof {
            assert(all.take(i + 1).drop_last() =~= all.take(i as int));
            assert(all.take(i + 1).last() == l@);
        }
        let again = match last {
            Some((port, pid)) => port == l.port && pid == l.pid,
            None => false,
        };
        if !again {
            assert(once_each(all.take(i + 1)) == before.push(l@));
            assert(before.push(l@).drop_last() =~= before);
            last = Some((l.port, l.pid));
            if observe::admits(l, config, ads, snapshot, topology) {
                let e = entry(l, snapshot, topology);
                let ghost rows_so_far = entries_view(out@);
                let ghost ev = e@;
                out.push(e);
                assert(entries_view(out@) =~= rows_so_far.push(ev));
            }
        }
        i = i + 1;
    }
    assert(all.take(i as int) =~= all);
    out
}

/// Whether a listener can be reached, in words.
pub open spec fn reach_of(l: Liveness) -> Seq<char> {
    match l {
        Liveness::Up => "up"@,
        Liveness::Down => "down"@,
        Liveness::Unknown => "?"@,
    }
}

/// Texts in the columns of the table.
pub open spec fn columns_of(
    port: Seq<char>,
    pid: Seq<char>,
    process: Seq<char>,
    live: Seq<char>,
    workspace: Seq<char>,
    via: Seq<char>,
) -> Seq<char> {
    padded(port, 7) + " "@ + padded(pid, 7) + " "@ + padded(process, 22) + " "@ + padded(live, 10)
        + " "@ + padded(workspace, 28) + " "@ + via
}

fn columns(port: &str, pid: &str, process: &str, live: &str, workspace: &str, via: &str) -> (r:
    String)
    ensures
        r@ == columns_of(port@, pid@, process@, live@, workspace@, via@),
{
    let mut out: String = text::pad(port, 7);
    text::push_text(&mut out, " ");
    text::push_text(&mut out, text::pad(pid, 7).as_str());
    text::push_text(&mut out, " ");
    text::push_text(&mut out, text::pad(process, 22).as_str());
    text::push_text(&mut out, " ");
    text::push_text(&mut out, text::pad(live, 10).as_str());
    text::push_text(&mut out, " ");
    text::push_text(&mut out, text::pad(workspace, 28).as_str());
    text::push_text(&mut out, " ");
    text::push_text(&mut out, via);
    out
}

/// The head of the table.
pub fn head() -> (r: String)
    ensures
        r@ == columns_of("port"@, "pid"@, "process"@, "live"@, "workspace"@, "via"@),
{
    columns("port", "pid", "process", "live", "workspace", "via")
}

impl Entry {
    /// The row as a line of the table.
    pub fn line(&self, live: Liveness) -> (r: String)
        ensures
            r@ == columns_of(
                decimal_of(self.port as nat),
                decimal_of(self.pid as nat),
                truncated(self.process_name@, 22),
                reach_of(live),
                truncated(self.workspace@, 28),
                self.via@,
            ),
    {
        let reach: &str = match live {
            Liveness::Up => "up",
            Liveness::Down => "down",
            Liveness::Unknown => "?",
        };
        columns(
            number::decimal(self.port as u64).as_str(),
            number::decimal(self.pid as u64).as_str(),
            text::truncate(self.process_name.as_str(), 22).as_str(),
            reach,
            text::truncate(self.workspace.as_str(), 28).as_str(),
            self.via.as_str(),
        )
    }
}

proof fn lemma_once_each(ls: Seq<ListenerView>)
    requires
        order::in_order(ls, by_port()),
    ensures
        forall|i: int, j: int|
            0 <= i < j < once_each(ls).len() ==> by_port()(
                #[trigger] once_each(ls)[i],
                #[trigger] once_each(ls)[j],
            ) && (once_each(ls)[i].port, once_each(ls)[i].pid) != (
                once_each(ls)[j].port,
                once_each(ls)[j].pid,
            ),
        ls.len() > 0 ==> once_each(ls).len() > 0 && once_each(ls).last().port == ls.last().port
            && once_each(ls).last().pid == ls.last().pid,
    decreases ls.len(),
{
    if ls.len() > 0 {
        let front = ls.drop_last();
        lemma_once_each(front);
        let out = once_each(front);
        let l = ls.last();
        if front.len() > 0 {
            assert(by_port()(ls[ls.len() - 2], ls[ls.len() - 1]));
            assert(front.last() == ls[ls.len() - 2]);
        }
        let r = once_each(ls);
        assert forall|i: int, j: int| 0 <= i < j < r.len() implies by_port()(
            #[trigger] r[i],
            #[trigger] r[j],
        ) && (r[i].port, r[i].pid) != (r[j].port, r[j].pid) by {
            if j < out.len() {
                assert(by_port()(out[i], out[j]));
            } else {
                assert(r[j] == l);
                assert(r[i] == out[i]);
                if i < out.len() - 1 {
                    assert(by_port()(out[i], out[out.len() - 1]));
                }
            }
        }
    }
}

proof fn lemma_entries_ascend(ls: Seq<ListenerView>, sc: Scene)
    requires
        forall|i: int, j: int|
            0 <= i < j < ls.len() ==> by_port()(#[trigger] ls[i], #[trigger] ls[j]) && (
                ls[i].port,
                ls[i].pid,
            ) != (ls[j].port, ls[j].pid),
    ensures
        entries_ascend(entries_of(ls, sc)),
        forall|i: int|
            0 <= i < entries_of(ls, sc).len() ==> exists|j: int|
                0 <= j < ls.len() && (#[trigger] ls[j]).port == (#[trigger] entries_of(
                    ls,
                    sc,
                )[i]).port && ls[j].pid == entries_of(ls, sc)[i].pid,
    decreases ls.len(),
{
    if ls.len() > 0 {
        let front = ls.drop_last();
        assert forall|i: int, j: int| 0 <= i < j < front.len() implies by_port()(
            #[trigger] front[i],
            #[trigger] front[j],
        ) && (front[i].port, front[i].pid) != (front[j].port, front[j].pid) by {
            assert(by_port()(ls[i], ls[j]));
        }
        lemma_entries_ascend(front, sc);
        let out = entries_of(front, sc);
        let r = entries_of(ls, sc);
        assert forall|i: int| 0 <= i < r.len() implies exists|j: int|
            0 <= j < ls.len() && (#[trigger] ls[j]).port == (#[trigger] r[i]).port && ls[j].pid
                == r[i].pid by {
            if i < out.len() {
                let j = choose|j: int|
                    0 <= j < front.len() && (#[trigger] front[j]).port == out[i].port
                        && front[j].pid == out[i].pid;
                assert(ls[j] == front[j]);
            } else {
                assert(ls[ls.len() - 1].port == r[i].port);
            }
        }
        assert forall|i: int, j: int| 0 <= i < j < r.len() implies before(
            #[trigger] r[i],
            #[trigger] r[j],
        ) by {
            if j < out.len() {
                assert(before(out[i], out[j]));
            } else {
                let k = choose|k: int|
                    0 <= k < front.len() && (#[trigger] front[k]).port == out[i].port
                        && front[k].pid == out[i].pid;
                assert(ls[k] == front[k]);
                assert(by_port()(ls[k], ls[ls.len() - 1]));
            }
        }
    }
}

/// A row has a lower port than another, or the same and a lower process id.
pub open spec fn before(a: EntryView, b: EntryView) -> bool {
    a.port < b.port || (a.port == b.port && a.pid < b.pid)
}

/// Each row stands before every later one.
pub open spec fn entries_ascend(rows: Seq<EntryView>) -> bool {
    forall|i: int, j: int| 0 <= i < j < rows.len() ==> before(#[trigger] rows[i], #[trigger] rows[j])
}

/// The table lists each port of a process once, by port.
pub proof fn the_table_lists_each_place_once(sc: Scene)
    ensures
        entries_ascend(table_of(sc)),
{
    order::sorting_gives_an_order(sc.snap.listeners, by_port());
    lemma_once_each(sorted(sc.snap.listeners, by_port()));
    lemma_entries_ascend(once_each(sorted(sc.snap.listeners, by_port())), sc);
}

proof fn lemma_kept_once(ls: Seq<ListenerView>, i: int)
    requires
        order::in_order(ls, by_port()),
        0 <= i < ls.len(),
    ensures
        exists|k: int|
            0 <= k < once_each(ls).len() && (#[trigger] once_each(ls)[k]).port == ls[i].port
                && once_each(ls)[k].pid == ls[i].pid,
        forall|k: int| 0 <= k < once_each(ls).len() ==> ls.contains(#[trigger] once_each(ls)[k]),
    decreases ls.len(),
{
    let front = ls.drop_last();
    let out = once_each(front);
    let all = once_each(ls);
    lemma_once_each(ls);
    assert forall|k: int| 0 <= k < all.len() implies ls.contains(#[trigger] all[k]) by {
        if k < out.len() {
            assert forall|a: int, b: int| 0 <= a < b < front.len() implies by_port()(
                #[trigger] front[a],
                #[trigger] front[b],
            ) by {
                assert(by_port()(ls[a], ls[b]));
            }
            lemma_once_each(front);
            lemma_kept_once(front, 0);
            assert(front.contains(out[k]));
            let j = choose|j: int| 0 <= j < front.len() && front[j] == out[k];
            assert(ls[j] == all[k]);
        } else {
            assert(ls[ls.len() - 1] == all[k]);
        }
    }
    if i == ls.len() - 1 {
        assert(all[all.len() - 1].port == ls[i].port && all[all.len() - 1].pid == ls[i].pid);
    } else {
        assert forall|a: int, b: int| 0 <= a < b < front.len() implies by_port()(
            #[trigger] front[a],
            #[trigger] front[b],
        ) by {
            assert(by_port()(ls[a], ls[b]));
        }
        lemma_kept_once(front, i);
        let k = choose|k: int|
            0 <= k < out.len() && (#[trigger] out[k]).port == front[i].port && out[k].pid
                == front[i].pid;
        assert(all[k].port == ls[i].port && all[k].pid == ls[i].pid);
    }
}

proof fn lemma_entry_in(ls: Seq<ListenerView>, sc: Scene, i: int)
    requires
        0 <= i < ls.len(),
        admitted(ls[i], sc),
    ensures
        entries_of(ls, sc).contains(entry_of(ls[i], sc.snap, sc.topo)),
    decreases ls.len(),
{
    let out = entries_of(ls.drop_last(), sc);
    let all = entries_of(ls, sc);
    let e = entry_of(ls[i], sc.snap, sc.topo);
    if i == ls.len() - 1 {
        assert(all[all.len() - 1] == e);
    } else {
        lemma_entry_in(ls.drop_last(), sc, i);
        let k = choose|k: int| 0 <= k < out.len() && out[k] == e;
        assert(all[k] == e);
    }
}

/// Every listener that passes the filters is in the table, under its port and
/// process.
pub proof fn the_table_lists_every_listener(sc: Scene, i: int)
    requires
        0 <= i < sc.snap.listeners.len(),
        admitted(sc.snap.listeners[i], sc),
        forall|j: int|
            0 <= j < sc.snap.listeners.len() && (#[trigger] sc.snap.listeners[j]).pid
                == sc.snap.listeners[i].pid && sc.snap.listeners[j].port
                == sc.snap.listeners[i].port ==> sc.snap.listeners[j].process_name
                == sc.snap.listeners[i].process_name,
    ensures
        exists|k: int|
            0 <= k < table_of(sc).len() && (#[trigger] table_of(sc)[k]).port
                == sc.snap.listeners[i].port && table_of(sc)[k].pid == sc.snap.listeners[i].pid
                && table_of(sc)[k].process_name == sc.snap.listeners[i].process_name,
{
    let l = sc.snap.listeners[i];
    let s = sorted(sc.snap.listeners, by_port());
    order::sorting_gives_an_order(sc.snap.listeners, by_port());
    order::sorting_keeps_the_elements(sc.snap.listeners, by_port());
    assert(sc.snap.listeners.contains(l));
    assert(s.contains(l));
    let m = choose|m: int| 0 <= m < s.len() && s[m] == l;
    lemma_kept_once(s, m);
    let kept = once_each(s);
    let k = choose|k: int|
        0 <= k < kept.len() && (#[trigger] kept[k]).port == s[m].port && kept[k].pid == s[m].pid;
    assert(s.contains(kept[k]));
    assert(sc.snap.listeners.contains(kept[k]));
    let j = choose|j: int|
        0 <= j < sc.snap.listeners.len() && sc.snap.listeners[j] == kept[k];
    assert(sc.snap.listeners[j].process_name == l.process_name);
    assert(admitted(kept[k], sc));
    lemma_entry_in(kept, sc, k);
    let e = entry_of(kept[k], sc.snap, sc.topo);
    let n = choose|n: int| 0 <= n < table_of(sc).len() && table_of(sc)[n] == e;
    assert(table_of(sc)[n].port == l.port);
}

/// A row says whose the listener is, by id and label, and how that is known; or
/// that nothing owns it.
pub proof fn a_row_names_the_owner(
    l: ListenerView,
    snap: SnapshotView,
    t: TopologyView,
    k: int,
    pane_id: Seq<char>,
)
    requires
        0 <= k < t.workspaces.len(),
        forall|j: int|
            0 <= j < k ==> (#[trigger] t.workspaces[j]).workspace_id
                != t.workspaces[k].workspace_id,
    ensures
        entry_of(l, snap, t).port == l.port,
        entry_of(l, snap, t).pid == l.pid,
        entry_of(l, snap, t).addr == l.addr,
        entry_of(l, snap, t).process_name == l.process_name,
        owner_of(l.pid, snap, t) matches Some(a) && a.workspace_id == t.workspaces[k].workspace_id
            ==> entry_of(l, snap, t).workspace == t.workspaces[k].workspace_id + " ("@
            + t.workspaces[k].label + ")"@,
        owner_of(l.pid, snap, t) matches Some(a) && a.attribution == (AttributionView::Pane {
            pane_id,
        }) ==> entry_of(l, snap, t).via == "pane "@ + pane_id,
        owner_of(l.pid, snap, t) matches Some(a) && a.attribution is Cwd ==> entry_of(
            l,
            snap,
            t,
        ).via == "cwd"@,
        owner_of(l.pid, snap, t) matches Some(a) && a.attribution is Command ==> entry_of(
            l,
            snap,
            t,
        ).via == "command"@,
        owner_of(l.pid, snap, t) is None ==> entry_of(l, snap, t).via == "unattributed"@
            && entry_of(l, snap, t).workspace == "—"@,
{
    let id = t.workspaces[k].workspace_id;
    let p = |w: attribute::WorkspaceView| w.workspace_id == id;
    seqs::lemma_first_where_unique(t.workspaces, p, k);
}

/// The columns of the table stand under each other: each text that fits begins
/// where the others of its column do.
pub proof fn columns_stand_under_each_other(
    port: Seq<char>,
    pid: Seq<char>,
    process: Seq<char>,
    live: Seq<char>,
    workspace: Seq<char>,
    via: Seq<char>,
)
    requires
        port.len() <= 7,
        pid.len() <= 7,
        process.len() <= 22,
        live.len() <= 10,
        workspace.len() <= 28,
    ensures
        ({
            let line = columns_of(port, pid, process, live, workspace, via);
            &&& line.subrange(0, port.len() as int) == port
            &&& line.subrange(8, 8 + pid.len() as int) == pid
            &&& line.subrange(16, 16 + process.len() as int) == process
            &&& line.subrange(39, 39 + live.len() as int) == live
            &&& line.subrange(50, 50 + workspace.len() as int) == workspace
            &&& line.skip(79) == via
        }),
{
    reveal_strlit(" ");
    let line = columns_of(port, pid, process, live, workspace, via);
    assert(line.subrange(0, port.len() as int) =~= port);
    assert(line.subrange(8, 8 + pid.len() as int) =~= pid);
    assert(line.subrange(16, 16 + process.len() as int) =~= process);
    assert(line.subrange(39, 39 + live.len() as int) =~= live);
    assert(line.subrange(50, 50 + workspace.len() as int) =~= workspace);
    assert(line.skip(79) =~= via);
}

/// A check that passes reads so, one that fails reads so, and only a variable
/// that is not a plugin's own has to be set.
pub proof fn checks_read_as_they_went(name: Seq<char>, detail: Seq<char>, ok: bool)
    ensures
        check_line(true, name, detail).take(4) == "OK  "@,
        check_line(false, name, detail).take(4) == "FAIL"@,
        check_line(ok, name, detail).skip(5) == name + ": "@ + detail,
        variable_ok(name, true),
        variable_ok("HERDR_PLUGIN"@ + name, ok),
        !"HERDR_PLUGIN"@.is_prefix_of(name) ==> !variable_ok(name, false),
{
    reveal_strlit("OK  ");
    reveal_strlit("FAIL");
    reveal_strlit(" ");
    assert(check_line(true, name, detail).take(4) =~= "OK  "@);
    assert(check_line(false, name, detail).take(4) =~= "FAIL"@);
    assert(check_line(ok, name, detail).skip(5) =~= name + ": "@ + detail);
    let p = "HERDR_PLUGIN"@;
    assert(p =~= (p + name).subrange(0, p.len() as int));
    assert(p.is_prefix_of(p + name));
}

} // verus!
