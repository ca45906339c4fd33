//! The detector's decisions: when to scan, what a scan changes, what to report,
//! and how requests on the control socket are answered.

use vstd::prelude::*;

use crate::advertise;
use crate::advertise::{ranked, recorded, turned_away, url_of, worth, Advertisements, URL_PATTERN};
use crate::assoc;
use crate::assoc::{as_map, distinct, has_key};
use crate::attribute::{PaneRef, PaneView, Topology, TopologyView, WorkspaceRef, WorkspaceView};
use crate::config::{inferred_url, Config};
use crate::herdr::{Pane, PaneInfo, Workspace};
use crate::number;
use crate::number::decimal_of;
use crate::observe;
use crate::observe::{ads_left, chosen, observations, strays, Scene};
use crate::path;
use crate::path::{is_absolute, names_of};
use crate::pattern::captures_of;
use crate::scan::docker::{containers_view, Container};
use crate::scan::Snapshot;
use crate::seqs;
use crate::seqs::first_where;
use crate::sidebar;
use crate::sidebar::{keys_between, rows_in, services_view, Reporter};
use crate::state;
use crate::state::{
    after_scan, at_key, blank, has_label, ids_of, of_workspace, one_row_per_key, pairs_of, restored,
    rows_of, with_manual, without_manual, Service, ServiceView, State, StateView, SCHEMA,
};
use crate::text;
use crate::text::{lex_le, opt_text, texts, trimmed};

verus! {

/// How long an event waits for others before it causes a scan, in milliseconds.
pub const EVENT_DEBOUNCE_MS: u64 = 2000;

/// How long a connect probe may take, in milliseconds.
pub const PROBE_TIMEOUT_MS: u64 = 500;

/// Longest pause after failed scans, in seconds.
pub const MAX_BACKOFF: u64 = 300;

/// How a service is ended.
#[derive(Debug, Clone, Copy, PartialEq, Eq, Structural)]
pub enum Signal {
    Term,
    Kill,
}

impl Default for Signal {
    fn default() -> (r: Self)
        ensures
            r == Signal::Term,
    {
        Signal::Term
    }
}

/// Requests on the control socket.
#[derive(Debug, PartialEq, Eq)]
pub enum Request {
    Ping,
    Rescan,
    Kill {
        workspace: String,
        port: u16,
        pid: Option<u32>,
        container: Option<String>,
        signal: Signal,
    },
    /// Registers a manual entry; the URL is inferred where none is given.
    Add { workspace: String, label: String, port: u16, url: Option<String> },
    Remove { label: String },
    Shutdown,
}

/// The answer to a request.
#[derive(Debug, PartialEq, Eq)]
pub struct Reply {
    pub ok: bool,
    pub pid: Option<u32>,
    pub error: Option<String>,
}

/// A [`Reply`] with its text as characters.
#[verifier::ext_equal]
pub struct ReplyView {
    pub ok: bool,
    pub pid: Option<u32>,
    pub error: Option<Seq<char>>,
}

impl View for Reply {
    type V = ReplyView;

    open spec fn view(&self) -> ReplyView {
        ReplyView { ok: self.ok, pid: self.pid, error: opt_text(self.error) }
    }
}

/// The answer that says no more than yes.
pub open spec fn granted() -> ReplyView {
    ReplyView { ok: true, pid: None, error: None }
}

/// The answer that says why not.
pub open spec fn refused(error: Seq<char>) -> ReplyView {
    ReplyView { ok: false, pid: None, error: Some(error) }
}

impl Reply {
    /// The answer that says no more than yes.
    pub fn granted() -> (r: Self)
        ensures
            r@ == granted(),
    {
        Reply { ok: true, pid: None, error: None }
    }

    /// The answer that says why not.
    pub fn refused(error: String) -> (r: Self)
        ensures
            r@ == refused(error@),
    {
        Reply { ok: false, pid: None, error: Some(error) }
    }

    /// The answer to a line that is no request.
    pub fn bad_request(error: &str) -> (r: Self)
        ensures
            r@ == refused("bad request: "@ + error@),
    {
        let mut m: String = "bad request: ".to_owned();
        text::push_text(&mut m, error);
        Reply::refused(m)
    }

    /// The answer where the daemon did not get to the request in time.
    pub fn busy() -> (r: Self)
        ensures
            r@ == refused("daemon busy"@),
    {
        Reply::refused("daemon busy".to_owned())
    }
}

// ---------------------------------------------------------------------------
// When to scan
// ---------------------------------------------------------------------------

/// When the next scan is due, in milliseconds of a steady clock.
#[derive(Debug, Clone, Copy, PartialEq, Eq, Structural)]
pub struct Schedule {
    pub next_scan: u64,
    /// Set by an event that has not been followed by a scan yet.
    pub pending_event: Option<u64>,
}

/// What woke the daemon.
#[derive(Debug, Clone, Copy, PartialEq, Eq, Structural)]
pub enum Wake {
    /// A request was answered; `stop` says that it ended the daemon.
    Control { stop: bool },
    /// Something about panes or workspaces changed.
    Event,
    /// The session's event stream ended.
    HerdrGone,
    /// Nothing happened until the scan was due.
    Timeout,
    /// Nobody can wake the daemon any more.
    Disconnected,
}

/// What the daemon does next.
#[derive(Debug, Clone, Copy, PartialEq, Eq, Structural)]
pub enum Next {
    Wait,
    Scan,
    Exit,
}

/// The earlier of the timer and a waiting event.
pub open spec fn due_at(s: Schedule) -> u64 {
    match s.pending_event {
        Some(at) => if at < s.next_scan {
            at
        } else {
            s.next_scan
        },
        None => s.next_scan,
    }
}

/// The schedule after an event: the first of several sets the time.
pub open spec fn after_event(s: Schedule, now: u64) -> Schedule {
    match s.pending_event {
        Some(_) => s,
        None => Schedule { pending_event: Some((now + EVENT_DEBOUNCE_MS) as u64), ..s },
    }
}

impl Schedule {
    /// The schedule of a daemon that starts now: it scans at once.
    pub fn start(now: u64) -> (r: Self)
        ensures
            r == (Schedule { next_scan: now, pending_event: None }),
    {
        Schedule { next_scan: now, pending_event: None }
    }

    /// Milliseconds until the next scan is due.
    pub fn wait(&self, now: u64) -> (r: u64)
        ensures
            r == if due_at(*self) > now {
                due_at(*self) - now
            } else {
                0
            },
    {
        let due: u64 = match self.pending_event {
            Some(at) => if at < self.next_scan {
                at
            } else {
                self.next_scan
            },
            None => self.next_scan,
        };
        if due > now {
            due - now
        } else {
            0
        }
    }

    /// What to do about being woken.
    pub fn woken(&mut self, wake: Wake, now: u64, socket_present: bool) -> (r: Next)
        requires
            now + EVENT_DEBOUNCE_MS <= u64::MAX,
        ensures
            r == match wake {
                Wake::Control { stop } => if stop {
                    Next::Exit
                } else {
                    Next::Wait
                },
                Wake::Event => Next::Wait,
                Wake::Timeout => if socket_present {
                    Next::Scan
                } else {
                    Next::Exit
                },
                Wake::HerdrGone => Next::Exit,
                Wake::Disconnected => Next::Exit,
            },
            *final(self) == match wake {
                Wake::Event => after_event(*old(self), now),
                Wake::Timeout => if socket_present {
                    Schedule { pending_event: None, ..*old(self) }
                } else {
                    *old(self)
                },
                _ => *old(self),
            },
    {
        match wake {
            Wake::Control { stop } => if stop {
                Next::Exit
            } else {
                Next::Wait
            },
            Wake::Event => {
                if self.pending_event.is_none() {
                    self.pending_event = Some(now + EVENT_DEBOUNCE_MS);
                }
                Next::Wait
            },
            Wake::Timeout => {
                if socket_present {
                    self.pending_event = None;
                    Next::Scan
                } else {
                    Next::Exit
                }
            },
            Wake::HerdrGone => Next::Exit,
            Wake::Disconnected => Next::Exit,
        }
    }

    /// Sets the timer after a scan that ended now.
    pub fn scanned(&mut self, now: u64, interval: u64)
        requires
            now + interval * 1000 <= u64::MAX,
        ensures
            *final(self) == (Schedule {
                next_scan: (now + interval * 1000) as u64,
                ..*old(self)
            }),
    {
        self.next_scan = now + interval * 1000;
    }
}

/// An event is followed by a scan after at most the debounce time, and it never
/// puts one off.
pub proof fn an_event_is_followed_by_a_scan(s: Schedule, now: u64)
    requires
        now + EVENT_DEBOUNCE_MS <= u64::MAX,
    ensures
        due_at(after_event(s, now)) <= due_at(s),
        s.pending_event is None ==> due_at(after_event(s, now)) <= now + EVENT_DEBOUNCE_MS,
        after_event(after_event(s, now), now) == after_event(s, now),
{
}

/// The factor by which failed scans lengthen the interval.
pub open spec fn backoff_factor(failures: u32) -> int {
    if failures == 0 {
        1
    } else if failures == 1 {
        2
    } else if failures == 2 {
        4
    } else if failures == 3 {
        8
    } else if failures == 4 {
        16
    } else {
        32
    }
}

/// The pause after a scan, in seconds.
pub open spec fn pause_of(interval: u64, failures: u32) -> int {
    if failures == 0 || interval * backoff_factor(failures) <= MAX_BACKOFF {
        interval * backoff_factor(failures)
    } else {
        MAX_BACKOFF as int
    }
}

/// Further failures never shorten the pause, and it never exceeds the longest
/// backoff.
pub proof fn failures_lengthen_the_pause(interval: u64, failures: u32)
    requires
        failures < u32::MAX,
        interval <= MAX_BACKOFF,
    ensures
        pause_of(interval, failures) <= pause_of(interval, (failures + 1) as u32),
        interval <= pause_of(interval, failures) <= MAX_BACKOFF,
{
    let a = backoff_factor(failures);
    let b = backoff_factor((failures + 1) as u32);
    assert(interval * a <= interval * b) by (nonlinear_arith)
        requires
            1 <= a <= b,
            0 <= interval,
    ;
    assert(interval <= interval * a) by (nonlinear_arith)
        requires
            1 <= a,
            0 <= interval,
    ;
}

// ---------------------------------------------------------------------------
// The daemon
// ---------------------------------------------------------------------------

/// The detector, but for what it does to the outside.
#[derive(Debug)]
pub struct Daemon {
    pub config: Config,
    pub state: State,
    pub reporter: Reporter,
    pub advertisements: Advertisements,
    /// Shell of each pane, as far as it was asked for.
    pub shell_pids: Vec<(String, Option<u32>)>,
    pub consecutive_failures: u32,
    pub shutting_down: bool,
}

/// The shells of a vector, as characters.
pub open spec fn shells_view(v: Seq<(String, Option<u32>)>) -> Seq<(Seq<char>, Option<u32>)> {
    v.map_values(|e: (String, Option<u32>)| (e.0@, e.1))
}

/// `labels` with `label` for `id`; ids ascend.
pub open spec fn with_label(
    labels: Seq<(Seq<char>, Seq<char>)>,
    id: Seq<char>,
    label: Seq<char>,
) -> Seq<(Seq<char>, Seq<char>)>
    decreases labels.len(),
{
    if labels.len() == 0 {
        seq![(id, label)]
    } else if labels[0].0 == id {
        seq![(id, label)] + labels.drop_first()
    } else if lex_le(id, labels[0].0) {
        seq![(id, label)] + labels
    } else {
        seq![labels[0]] + with_label(labels.drop_first(), id, label)
    }
}

/// The labels of these workspaces by id; of several the last counts.
pub open spec fn labels_of(ws: Seq<WorkspaceView>) -> Seq<(Seq<char>, Seq<char>)>
    decreases ws.len(),
{
    if ws.len() == 0 {
        seq![]
    } else {
        with_label(labels_of(ws.drop_last()), ws.last().workspace_id, ws.last().label)
    }
}

fn place_label(labels: &mut Vec<(String, String)>, id: &str, label: &str)
    ensures
        pairs_of(final(labels)@) == with_label(pairs_of(old(labels)@), id@, label@),
{
    let ghost before = pairs_of(labels@);
    let mut i: usize = 0;
    proof {
        assert(before.skip(0) =~= before);
        assert(before.take(0) + with_label(before, id@, label@) =~= with_label(
            before,
            id@,
            label@,
        ));
    }
    while i < labels.len() && !text::same(labels[i].0.as_str(), id) && !text::text_le(
        id,
        labels[i].0.as_str(),
    )
        invariant
            i <= labels@.len(),
            before == pairs_of(labels@),
            with_label(before, id@, label@) == before.take(i as int) + with_label(
                before.skip(i as int),
                id@,
                label@,
            ),
        decreases labels.len() - i,
    {
        proof {
            let t = before.skip(i as int);
            assert(t[0] == before[i as int]);
            assert(t.drop_first() =~= before.skip(i + 1));
            assert(before.take(i as int) + (seq![t[0]] + with_label(
                before.skip(i + 1),
                id@,
                label@,
            )) =~= before.take(i + 1) + with_label(before.skip(i + 1), id@, label@));
        }
        i = i + 1;
    }
    let ghost t = before.skip(i as int);
    let ghost pair = (id@, label@);
    if i < labels.len() && text::same(labels[i].0.as_str(), id) {
        assert(t[0] == before[i as int]);
        labels.set(i, (id.to_owned(), label.to_owned()));
        assert(pairs_of(labels@) =~= before.update(i as int, pair));
        assert(before.update(i as int, pair) =~= before.take(i as int) + (seq![pair]
            + t.drop_first()));
    } else {
        proof {
            if i < labels.len() {
                assert(t[0] == before[i as int]);
            }
        }
        labels.insert(i, (id.to_owned(), label.to_owned()));
        assert(pairs_of(labels@) =~= before.insert(i as int, pair));
        assert(before.insert(i as int, pair) =~= before.take(i as int) + (seq![pair] + t));
        assert(t.len() == 0 ==> seq![pair] + t =~= seq![pair]);
    }
}

/// The labels of these workspaces, ids ascending.
pub fn workspace_labels(workspaces: &Vec<WorkspaceRef>) -> (r: Vec<(String, String)>)
    ensures
        pairs_of(r@) == labels_of(workspaces@.map_values(|w: WorkspaceRef| w@)),
{
    let ghost all = workspaces@.map_values(|w: WorkspaceRef| w@);
    let mut out: Vec<(String, String)> = Vec::new();
    let mut i: usize = 0;
    assert(pairs_of(out@) =~= labels_of(all.take(0)));
    while i < workspaces.len()
        invariant
            i <= workspaces@.len(),
            all == workspaces@.map_values(|w: WorkspaceRef| w@),
            pairs_of(out@) == labels_of(all.take(i as int)),
        decreases workspaces.len() - i,
    {
        proof {
            assert(all.take(i + 1).drop_last() =~= all.take(i as int));
            assert(all.take(i + 1).last() == all[i as int]);
        }
        place_label(
            &mut out,
            workspaces[i].workspace_id.as_str(),
            workspaces[i].label.as_str(),
        );
        i = i + 1;
    }
    assert(all.take(i as int) =~= all);
    out
}

impl Daemon {
    /// What every operation keeps: one row for each workspace and port, and no
    /// workspace, place or pane remembered twice.
    pub open spec fn wf(&self) -> bool {
        &&& self.reporter.wf()
        &&& self.advertisements.wf()
        &&& ranked(self.advertisements@, self.config.urls.prefer_hostname)
        &&& distinct(shells_view(self.shell_pids@))
        &&& one_row_per_key(self.state@.services)
    }

    /// A daemon that has not scanned yet.
    pub fn new(config: Config, daemon_pid: u32, scan_backend: &str) -> (r: Self)
        ensures
            r.wf(),
            r.config == config,
            r.state@ == (StateView {
                schema: SCHEMA,
                daemon_pid,
                scan_backend: scan_backend@,
                ..blank()
            }),
            r.reporter@ == Map::<Seq<char>, Seq<Seq<char>>>::empty(),
            r.advertisements@.dom() == Set::<(Seq<char>, u16)>::empty(),
            r.shell_pids@.len() == 0,
            r.consecutive_failures == 0,
            !r.shutting_down,
    {
        let mut state = State::default();
        state.schema = SCHEMA;
        state.daemon_pid = daemon_pid;
        state.scan_backend = scan_backend.to_owned();
        let r = Daemon {
            config,
            state,
            reporter: Reporter::default(),
            advertisements: Advertisements::default(),
            shell_pids: Vec::new(),
            consecutive_failures: 0,
            shutting_down: false,
        };
        proof {
            assoc::lemma_no_pairs(shells_view(r.shell_pids@));
        }
        r
    }

    /// Takes note of a line that a pane of `workspace_id` printed; says whether
    /// it changed an advertised URL. Host names count as the configuration has
    /// it.
    pub fn advertise(&mut self, workspace_id: String, pane_id: String, line: &str) -> (r: bool)
        requires
            old(self).wf(),
        ensures
            final(self).wf(),
            ({
                let before = old(self).advertisements@;
                let prefer = old(self).config.urls.prefer_hostname;
                match url_of(captures_of(URL_PATTERN@, line@)) {
                    Some((port, url)) => {
                        let key = (workspace_id@, port);
                        &&& r == !turned_away(before, key, url, worth(url, prefer))
                        &&& final(self).advertisements@ == recorded(
                            before,
                            key,
                            url,
                            pane_id@,
                            worth(url, prefer),
                        )
                    },
                    None => !r && final(self).advertisements@ == before,
                }
            }),
            final(self).config == old(self).config,
            final(self).state == old(self).state,
            final(self).reporter == old(self).reporter,
            final(self).shell_pids == old(self).shell_pids,
            final(self).consecutive_failures == old(self).consecutive_failures,
            final(self).shutting_down == old(self).shutting_down,
    {
        match advertise::parse_url(line) {
            Some((port, url)) => self.advertisements.record_preferring(
                workspace_id,
                port,
                url,
                pane_id,
                self.config.urls.prefer_hostname,
            ),
            None => false,
        }
    }

    /// Takes over from an earlier run what was registered by hand.
    pub fn restore(&mut self, earlier: &State)
        requires
            old(self).wf(),
        ensures
            final(self).wf(),
            *final(self) == (Daemon { state: final(self).state, ..*old(self) }),
            final(self).state@ == (StateView {
                services: restored(earlier@.services),
                ..old(self).state@
            }),
    {
        self.state.restore(earlier);
        proof {
            state::restoring_keeps_one_row_per_key(earlier@.services);
        }
    }

    /// Seconds until the next scan: the interval, doubled for each failure in a
    /// row up to five times, and then at most [`MAX_BACKOFF`].
    pub fn interval_after_result(&self) -> (r: u64)
        requires
            self.config.scan.interval_seconds * backoff_factor(self.consecutive_failures)
                <= u64::MAX,
        ensures
            r == pause_of(
                if self.config.scan.interval_seconds < 1 {
                    1
                } else {
                    self.config.scan.interval_seconds
                },
                self.consecutive_failures,
            ),
    {
        let interval: u64 = self.config.interval();
        if self.consecutive_failures == 0 {
            return interval;
        }
        let pause: u64 = if self.consecutive_failures == 1 {
            interval * 2
        } else if self.consecutive_failures == 2 {
            interval * 4
        } else if self.consecutive_failures == 3 {
            interval * 8
        } else if self.consecutive_failures == 4 {
            interval * 16
        } else {
            interval * 32
        };
        if pause <= MAX_BACKOFF {
            pause
        } else {
            MAX_BACKOFF
        }
    }

    /// Records how a scan ended.
    pub fn record_result(
        &mut self,
        result: Result<(), String>,
        duration_ms: u64,
        now_ms: u64,
    )
        requires
            result is Err ==> old(self).consecutive_failures < u32::MAX,
        ensures
            final(self).config == old(self).config,
            final(self).reporter == old(self).reporter,
            final(self).advertisements == old(self).advertisements,
            final(self).shell_pids == old(self).shell_pids,
            final(self).shutting_down == old(self).shutting_down,
            final(self).consecutive_failures == match result {
                Ok(_) => 0,
                Err(_) => old(self).consecutive_failures + 1,
            },
            final(self).state@ == (StateView {
                last_error: match result {
                    Ok(_) => None,
                    Err(e) => Some(e@),
                },
                last_scan_duration_ms: duration_ms,
                updated_ms: now_ms,
                ..old(self).state@
            }),
    {
        match result {
            Ok(_) => {
                self.consecutive_failures = 0;
                self.state.last_error = None;
            },
            Err(e) => {
                self.consecutive_failures = self.consecutive_failures + 1;
                self.state.last_error = Some(e);
            },
        }
        self.state.last_scan_duration_ms = duration_ms;
        self.state.updated_ms = now_ms;
    }

    /// Filters, attributes and names what a scan saw, and brings the registry
    /// up to it.
    pub fn apply(
        &mut self,
        snapshot: &Snapshot,
        topology: &Topology,
        containers: &Vec<Container>,
        now_ms: u64,
    )
        requires
            old(self).wf(),
        ensures
            final(self).wf(),
            final(self).config == old(self).config,
            final(self).reporter == old(self).reporter,
            final(self).shell_pids == old(self).shell_pids,
            final(self).consecutive_failures == old(self).consecutive_failures,
            final(self).shutting_down == old(self).shutting_down,
            ({
                let sc = Scene {
                    config: old(self).config,
                    snap: snapshot@,
                    topo: topology@,
                    ads: old(self).advertisements@,
                };
                let cs = containers_view(containers@);
                let rows = old(self).state@.services;
                &&& final(self).advertisements@ == ads_left(
                    chosen(cs, sc),
                    rows,
                    old(self).advertisements@,
                )
                &&& final(self).state@ == (StateView {
                    services: after_scan(rows, observations(cs, rows, sc), now_ms),
                    unattributed: strays(cs, sc),
                    workspace_labels: labels_of(topology@.workspaces),
                    last_scan_ms: now_ms,
                    updated_ms: now_ms,
                    ..old(self).state@
                })
            }),
    {
        let ghost sc = Scene {
            config: self.config,
            snap: snapshot@,
            topo: topology@,
            ads: self.advertisements@,
        };
        let ghost rows = self.state@.services;
        let (observed, stray) = observe::observe(
            &self.config,
            &mut self.advertisements,
            &self.state.services,
            snapshot,
            topology,
            containers,
        );
        self.state.unattributed = stray;
        self.state.workspace_labels = workspace_labels(&topology.workspaces);
        self.state.apply_scan(observed, now_ms);
        proof {
            state::a_scan_keeps_one_row_per_key(
                rows,
                observations(containers_view(containers@), rows, sc),
                now_ms,
            );
        }
    }

    /// The rows that the sidebar of each workspace shows, ids ascending; none
    /// where the sidebar is off.
    pub fn sidebar_rows(&self) -> (r: Vec<(String, Vec<String>)>)
        ensures
            !self.config.sidebar.enabled ==> r@.len() == 0,
            self.config.sidebar.enabled ==> {
                &&& r@.map_values(|e: (String, Vec<String>)| e.0@) == ids_of(self.state@.services)
                &&& forall|i: int|
                    0 <= i < r@.len() ==> texts((#[trigger] r@[i]).1@) == rows_in(
                        self.state@.services.filter(of_workspace(r@[i].0@)),
                        self.config.sidebar.max_rows as int,
                    )
            },
    {
        let mut out: Vec<(String, Vec<String>)> = Vec::new();
        if !self.config.sidebar.enabled {
            return out;
        }
        let ids = self.state.workspace_ids();
        let max_rows: usize = self.config.sidebar.max_rows as usize;
        let mut i: usize = 0;
        while i < ids.len()
            invariant
                i <= ids@.len(),
                max_rows == self.config.sidebar.max_rows,
                out@.len() == i,
                forall|j: int| 0 <= j < i ==> (#[trigger] out@[j]).0@ == ids@[j]@,
                forall|j: int|
                    0 <= j < i ==> texts((#[trigger] out@[j]).1@) == rows_in(
                        self.state@.services.filter(of_workspace(out@[j].0@)),
                        max_rows as int,
                    ),
            decreases ids.len() - i,
        {
            let services = self.state.services_for(ids[i].as_str());
            let rows = workspace_rows(&services, max_rows);
            out.push((ids[i].clone(), rows));
            i = i + 1;
        }
        proof {
            assert(out@.map_values(|e: (String, Vec<String>)| e.0@) =~= texts(ids@));
        }
        out
    }

    /// The tokens to clear when the daemon ends, for each workspace with a
    /// service.
    pub fn cleanup_clears(&self) -> (r: Vec<(String, Vec<String>)>)
        ensures
            ({
                &&& r@.map_values(|e: (String, Vec<String>)| e.0@) == ids_of(self.state@.services)
                &&& forall|i: int|
                    0 <= i < r@.len() ==> texts((#[trigger] r@[i]).1@) == keys_between(
                        0,
                        self.config.sidebar.max_rows as int,
                    )
            }),
    {
        let mut out: Vec<(String, Vec<String>)> = Vec::new();
        let ids = self.state.workspace_ids();
        let n: usize = self.config.sidebar.max_rows as usize;
        let mut i: usize = 0;
        while i < ids.len()
            invariant
                i <= ids@.len(),
                n == self.config.sidebar.max_rows,
                out@.len() == i,
                forall|j: int| 0 <= j < i ==> (#[trigger] out@[j]).0@ == ids@[j]@,
                forall|j: int|
                    0 <= j < i ==> texts((#[trigger] out@[j]).1@) == keys_between(0, n as int),
            decreases ids.len() - i,
        {
            out.push((ids[i].clone(), sidebar::keys(0, n)));
            i = i + 1;
        }
        proof {
            assert(out@.map_values(|e: (String, Vec<String>)| e.0@) =~= texts(ids@));
        }
        out
    }
}

/// The rows of one workspace.
fn workspace_rows(services: &Vec<Service>, max_rows: usize) -> (r: Vec<String>)
    ensures
        texts(r@) == rows_in(rows_of(services@), max_rows as int),
{
    let mut refs: Vec<&Service> = Vec::new();
    let mut i: usize = 0;
    assert(services_view(refs@) =~= rows_of(services@).take(0));
    while i < services.len()
        invariant
            i <= services@.len(),
            services_view(refs@) == rows_of(services@).take(i as int),
        decreases services.len() - i,
    {
        let ghost before = services_view(refs@);
        refs.push(&services[i]);
        assert(services_view(refs@) =~= before.push(rows_of(services@)[i as int]));
        assert(services_view(refs@) =~= rows_of(services@).take(i + 1));
        i = i + 1;
    }
    assert(rows_of(services@).take(i as int) =~= rows_of(services@));
    sidebar::rows_for(refs.as_slice(), max_rows)
}

// ---------------------------------------------------------------------------
// Workspaces and panes
// ---------------------------------------------------------------------------

/// Two paths with the same components.
pub open spec fn same_path(a: Seq<char>, b: Seq<char>) -> bool {
    is_absolute(a) == is_absolute(b) && names_of(a) == names_of(b)
}

/// The directories of a pane: its own, and that of its foreground process where
/// it is another.
pub open spec fn pane_dirs(p: PaneInfo) -> Seq<Seq<char>> {
    match (p.cwd, p.foreground_cwd) {
        (Some(a), Some(b)) => if same_path(a, b) {
            seq![a]
        } else {
            seq![a, b]
        },
        (Some(a), None) => seq![a],
        (None, Some(b)) => seq![b],
        (None, None) => seq![],
    }
}

/// A pane as attribution needs it.
pub open spec fn pane_ref(p: PaneInfo, shells: Map<Seq<char>, Option<u32>>) -> PaneView {
    PaneView {
        pane_id: p.pane_id,
        workspace_id: p.workspace_id,
        shell_pid: if shells.contains_key(p.pane_id) {
            shells[p.pane_id]
        } else {
            None
        },
        cwds: pane_dirs(p),
    }
}

/// A workspace as attribution needs it.
pub open spec fn workspace_ref(w: Workspace) -> WorkspaceView {
    WorkspaceView {
        workspace_id: w.workspace_id@,
        label: w.label@,
        checkout_path: match w.worktree {
            Some(t) => Some(t.checkout_path@),
            None => None,
        },
    }
}

/// Some pane has this id.
pub open spec fn is_pane(panes: Seq<Pane>, id: Seq<char>) -> bool {
    exists|i: int| 0 <= i < panes.len() && (#[trigger] panes[i])@.pane_id == id
}

/// The panes whose shells have not been asked for, each once, in their order.
pub open spec fn unasked(panes: Seq<PaneInfo>, shells: Map<Seq<char>, Option<u32>>) -> Seq<
    Seq<char>,
>
    decreases panes.len(),
{
    if panes.len() == 0 {
        seq![]
    } else {
        let out = unasked(panes.drop_last(), shells);
        let id = panes.last().pane_id;
        if shells.contains_key(id) || out.contains(id) {
            out
        } else {
            out.push(id)
        }
    }
}

fn has_pane(panes: &Vec<Pane>, id: &str) -> (r: bool)
    ensures
        r == is_pane(panes@, id@),
{
    let mut i: usize = 0;
    while i < panes.len()
        invariant
            i <= panes@.len(),
            forall|j: int| 0 <= j < i ==> (#[trigger] panes@[j])@.pane_id != id@,
        decreases panes.len() - i,
    {
        if text::same(panes[i].pane_id.as_str(), id) {
            assert(panes@[i as int]@.pane_id == id@);
            return true;
        }
        i = i + 1;
    }
    false
}

fn same_dir(a: &str, b: &str) -> (r: bool)
    ensures
        r == same_path(a@, b@),
{
    if !(path::is_under(a, b) && path::is_under(b, a)) {
        return false;
    }
    proof {
        let x = names_of(a@);
        let y = names_of(b@);
        assert(x.len() == y.len());
        assert(x =~= y.subrange(0, x.len() as int));
        assert(x =~= y);
    }
    true
}

fn dirs(p: &Pane) -> (r: Vec<String>)
    ensures
        texts(r@) == pane_dirs(p@),
{
    let mut out: Vec<String> = Vec::new();
    if let Some(a) = &p.cwd {
        out.push(a.clone());
    }
    if let Some(b) = &p.foreground_cwd {
        let repeated = match &p.cwd {
            Some(a) => same_dir(a.as_str(), b.as_str()),
            None => false,
        };
        if !repeated {
            out.push(b.clone());
        }
    }
    assert(texts(out@) =~= pane_dirs(p@));
    out
}

impl Daemon {
    fn find_shell(&self, pane_id: &str) -> (r: usize)
        ensures
            r == first_where(
                shells_view(self.shell_pids@),
                has_key::<Seq<char>, Option<u32>>(pane_id@),
            ),
            r <= self.shell_pids@.len(),
    {
        let r = seqs::find_where(
            &self.shell_pids,
            |e: &(String, Option<u32>)| -> (b: bool)
                ensures
                    b == (e.0@ == pane_id@)
                { text::same(e.0.as_str(), pane_id) },
            Ghost(|e: (String, Option<u32>)| e.0@ == pane_id@),
        );
        proof {
            seqs::lemma_first_where_map(
                self.shell_pids@,
                |e: (String, Option<u32>)| (e.0@, e.1),
                |e: (String, Option<u32>)| e.0@ == pane_id@,
                has_key::<Seq<char>, Option<u32>>(pane_id@),
            );
        }
        r
    }

    /// The shells that are known, by pane.
    pub open spec fn shells(&self) -> Map<Seq<char>, Option<u32>> {
        as_map(shells_view(self.shell_pids@))
    }

    /// Forgets the shells of panes that are gone.
    pub fn keep_live_shells(&mut self, panes: &Vec<Pane>)
        requires
            old(self).wf(),
        ensures
            final(self).wf(),
            *final(self) == (Daemon { shell_pids: final(self).shell_pids, ..*old(self) }),
            forall|id: Seq<char>| #[trigger]
                final(self).shells().contains_key(id) <==> old(self).shells().contains_key(id)
                    && is_pane(panes@, id),
            forall|id: Seq<char>| #[trigger]
                final(self).shells().contains_key(id) ==> final(self).shells()[id] == old(
                    self,
                ).shells()[id],
    {
        let ghost before = self.shell_pids@;
        let ghost es = shells_view(before);
        let ghost p = |e: (Seq<char>, Option<u32>)| is_pane(panes@, e.0);
        let mut shells: Vec<(String, Option<u32>)> = Vec::new();
        std::mem::swap(&mut shells, &mut self.shell_pids);
        self.shell_pids =
        seqs::retain(
            shells,
            |e: &(String, Option<u32>)| -> (b: bool)
                ensures
                    b == is_pane(panes@, e.0@)
                { has_pane(panes, e.0.as_str()) },
            Ghost(|e: (String, Option<u32>)| is_pane(panes@, e.0@)),
        );
        proof {
            seqs::lemma_filter_map(
                before,
                |e: (String, Option<u32>)| (e.0@, e.1),
                |e: (String, Option<u32>)| is_pane(panes@, e.0@),
                p,
            );
            assoc::lemma_filtered(es, p);
        }
    }

    /// The panes whose shells have not been asked for, each once.
    pub fn unasked_panes(&self, panes: &Vec<Pane>) -> (r: Vec<String>)
        ensures
            texts(r@) == unasked(panes@.map_values(|p: Pane| p@), self.shells()),
    {
        let ghost all = panes@.map_values(|p: Pane| p@);
        let mut out: Vec<String> = Vec::new();
        let mut i: usize = 0;
        assert(texts(out@) =~= unasked(all.take(0), self.shells()));
        while i < panes.len()
            invariant
                i <= panes@.len(),
                all == panes@.map_values(|p: Pane| p@),
                texts(out@) == unasked(all.take(i as int), self.shells()),
            decreases panes.len() - i,
        {
            proof {
                assert(all.take(i + 1).drop_last() =~= all.take(i as int));
                assert(all.take(i + 1).last() == all[i as int]);
            }
            let id = panes[i].pane_id.as_str();
            let k = self.find_shell(id);
            if k >= self.shell_pids.len() && !text::has_text(&out, id) {
                let ghost before = texts(out@);
                out.push(panes[i].pane_id.clone());
                assert(texts(out@) =~= before.push(id@));
            }
            i = i + 1;
        }
        assert(all.take(i as int) =~= all);
        out
    }

    /// Remembers the shell of a pane, or that it has none.
    pub fn learn_shell(&mut self, pane_id: String, pid: Option<u32>)
        requires
            old(self).wf(),
        ensures
            final(self).wf(),
            *final(self) == (Daemon { shell_pids: final(self).shell_pids, ..*old(self) }),
            final(self).shells() == old(self).shells().insert(pane_id@, pid),
    {
        let ghost before = shells_view(self.shell_pids@);
        let ghost key = pane_id@;
        let k = self.find_shell(pane_id.as_str());
        proof {
            assoc::lemma_with_pair(before, key, pid);
        }
        if k < self.shell_pids.len() {
            self.shell_pids.set(k, (pane_id, pid));
            assert(shells_view(self.shell_pids@) =~= before.update(k as int, (key, pid)));
        } else {
            self.shell_pids.push((pane_id, pid));
            assert(shells_view(self.shell_pids@) =~= before.push((key, pid)));
        }
    }

    /// The workspaces and panes with their shells, as far as these are known.
    pub fn topology(&self, workspaces: &Vec<Workspace>, panes: &Vec<Pane>, home: Option<String>)
        -> (r: Topology)
        ensures
            r@ == (TopologyView {
                workspaces: workspaces@.map_values(|w: Workspace| workspace_ref(w)),
                panes: panes@.map_values(|p: Pane| pane_ref(p@, self.shells())),
                excluded_roots: match home {
                    Some(h) => seq!["/"@, h@],
                    None => seq!["/"@],
                },
            }),
    {
        let ghost want_ws = workspaces@.map_values(|w: Workspace| workspace_ref(w));
        let ghost want_panes = panes@.map_values(|p: Pane| pane_ref(p@, self.shells()));
        let mut refs: Vec<WorkspaceRef> = Vec::new();
        let mut i: usize = 0;
        while i < workspaces.len()
            invariant
                i <= workspaces@.len(),
                refs@.len() == i,
                forall|j: int| 0 <= j < i ==> (#[trigger] refs@[j])@ == workspace_ref(workspaces@[j]),
            decreases workspaces.len() - i,
        {
            let w = &workspaces[i];
            let checkout_path = match &w.worktree {
                Some(t) => Some(t.checkout_path.clone()),
                None => None,
            };
            refs.push(
                WorkspaceRef {
                    workspace_id: w.workspace_id.clone(),
                    label: w.label.clone(),
                    checkout_path,
                },
            );
            assert(refs@[i as int]@ =~= workspace_ref(*w));
            i = i + 1;
        }
        let mut ps: Vec<PaneRef> = Vec::new();
        i = 0;
        while i < panes.len()
            invariant
                i <= panes@.len(),
                ps@.len() == i,
                forall|j: int|
                    0 <= j < i ==> (#[trigger] ps@[j])@ == pane_ref(panes@[j]@, self.shells()),
            decreases panes.len() - i,
        {
            let p = &panes[i];
            let k = self.find_shell(p.pane_id.as_str());
            let shell_pid: Option<u32> = if k < self.shell_pids.len() {
                assert(shells_view(self.shell_pids@)[k as int].1 == self.shell_pids@[k as int].1);
                self.shell_pids[k].1
            } else {
                None
            };
            ps.push(
                PaneRef {
                    pane_id: p.pane_id.clone(),
                    workspace_id: p.workspace_id.clone(),
                    shell_pid,
                    cwds: dirs(p),
                },
            );
            assert(ps@[i as int]@ =~= pane_ref(p@, self.shells()));
            i = i + 1;
        }
        let r = Topology::new(refs, ps, home);
        assert(r@.workspaces =~= want_ws);
        assert(r@.panes =~= want_panes);
        r
    }
}

// ---------------------------------------------------------------------------
// Requests
// ---------------------------------------------------------------------------

/// What ending a service takes.
#[derive(Debug, PartialEq, Eq)]
pub enum Ending {
    /// Signal this process.
    Process { pid: u32, signal: Signal },
    /// Run `docker` with these arguments.
    Container { args: Vec<String> },
}

/// What answering a request takes.
#[derive(Debug, PartialEq, Eq)]
pub enum Task {
    /// Just this answer.
    Answer(Reply),
    /// A scan, then this answer.
    ScanThenAnswer(Reply),
    /// Ending a service; what comes of it decides the answer.
    End(Ending),
}

/// The row of the last scan at this place is this container.
pub open spec fn holds_container(
    rows: Seq<ServiceView>,
    ws: Seq<char>,
    port: u16,
    name: Seq<char>,
) -> bool {
    exists|i: int|
        0 <= i < rows.len() && at_key(ws, port)(#[trigger] rows[i]) && rows[i].container == Some(
            name,
        )
}

/// The row of the last scan at this place is this process.
pub open spec fn holds_process(rows: Seq<ServiceView>, ws: Seq<char>, port: u16, pid: u32) -> bool {
    exists|i: int|
        0 <= i < rows.len() && at_key(ws, port)(#[trigger] rows[i]) && rows[i].pid == Some(pid)
}

/// Why nothing is ended.
pub open spec fn no_such_service(ws: Seq<char>, port: u16, what: Seq<char>) -> Seq<char> {
    "no attributed service "@ + ws + ":"@ + decimal_of(port as nat) + " with "@ + what
        + "; rescan and retry"@
}

fn no_service(ws: &str, port: u16, what: &str) -> (r: String)
    ensures
        r@ == no_such_service(ws@, port, what@),
{
    let mut m: String = "no attributed service ".to_owned();
    text::push_text(&mut m, ws);
    text::push_text(&mut m, ":");
    text::push_text(&mut m, number::decimal(port as u64).as_str());
    text::push_text(&mut m, " with ");
    text::push_text(&mut m, what);
    text::push_text(&mut m, "; rescan and retry");
    m
}

/// What `docker` is told to end a container.
pub open spec fn docker_verb(signal: Signal) -> Seq<char> {
    match signal {
        Signal::Term => "stop"@,
        Signal::Kill => "kill"@,
    }
}

impl Daemon {
    /// What ending a service takes, where it still is what the last scan saw at
    /// `(workspace, port)`; else why nothing is ended.
    pub fn kill(
        &self,
        workspace: &str,
        port: u16,
        pid: Option<u32>,
        container: Option<String>,
        signal: Signal,
    ) -> (r: Result<Ending, String>)
        ensures
            match (container, pid) {
                (Some(name), _) => {
                    &&& r is Ok <==> holds_container(
                        self.state@.services,
                        workspace@,
                        port,
                        name@,
                    )
                    &&& r matches Ok(e) ==> (e matches Ending::Container { args } && texts(args@)
                        == seq![docker_verb(signal), name@])
                    &&& r matches Err(m) ==> m@ == no_such_service(
                        workspace@,
                        port,
                        "container "@ + name@,
                    )
                },
                (None, Some(p)) => {
                    &&& r is Ok <==> holds_process(self.state@.services, workspace@, port, p)
                    &&& r matches Ok(e) ==> e == (Ending::Process { pid: p, signal })
                    &&& r matches Err(m) ==> m@ == no_such_service(
                        workspace@,
                        port,
                        "pid "@ + decimal_of(p as nat),
                    )
                },
                (None, None) => r matches Err(m) && m@ == no_such_service(
                    workspace@,
                    port,
                    "a process"@,
                ),
            },
    {
        match (container, pid) {
            (Some(name), _) => {
                if !self.runs_container(workspace, port, name.as_str()) {
                    let mut what: String = "container ".to_owned();
                    text::push_text(&mut what, name.as_str());
                    return Err(no_service(workspace, port, what.as_str()));
                }
                let verb: String = match signal {
                    Signal::Term => "stop".to_owned(),
                    Signal::Kill => "kill".to_owned(),
                };
                let ghost target = name@;
                let args: Vec<String> = vec![verb, name];
                assert(texts(args@) =~= seq![docker_verb(signal), target]);
                Ok(Ending::Container { args })
            },
            (None, Some(p)) => {
                if !self.runs_process(workspace, port, p) {
                    let mut what: String = "pid ".to_owned();
                    text::push_text(&mut what, number::decimal(p as u64).as_str());
                    return Err(no_service(workspace, port, what.as_str()));
                }
                Ok(Ending::Process { pid: p, signal })
            },
            (None, None) => Err(no_service(workspace, port, "a process")),
        }
    }

    /// Whether the last scan saw this container at `(workspace, port)`.
    fn runs_container(&self, workspace: &str, port: u16, name: &str) -> (r: bool)
        ensures
            r == holds_container(self.state@.services, workspace@, port, name@),
    {
        let ghost rows = self.state@.services;
        let mut i: usize = 0;
        while i < self.state.services.len()
            invariant
                i <= self.state.services@.len(),
                rows == rows_of(self.state.services@),
                forall|j: int|
                    0 <= j < i ==> !(at_key(workspace@, port)(#[trigger] rows[j])
                        && rows[j].container == Some(name@)),
            decreases self.state.services.len() - i,
        {
            let s = &self.state.services[i];
            assert(rows[i as int] == s@);
            let same = match &s.container {
                Some(c) => text::same(c.as_str(), name),
                None => false,
            };
            if same && s.port == port && text::same(s.workspace_id.as_str(), workspace) {
                assert(at_key(workspace@, port)(rows[i as int]));
                return true;
            }
            i = i + 1;
        }
        false
    }

    /// Whether the last scan saw this process at `(workspace, port)`.
    fn runs_process(&self, workspace: &str, port: u16, pid: u32) -> (r: bool)
        ensures
            r == holds_process(self.state@.services, workspace@, port, pid),
    {
        let ghost rows = self.state@.services;
        let mut i: usize = 0;
        while i < self.state.services.len()
            invariant
                i <= self.state.services@.len(),
                rows == rows_of(self.state.services@),
                forall|j: int|
                    0 <= j < i ==> !(at_key(workspace@, port)(#[trigger] rows[j]) && rows[j].pid
                        == Some(pid)),
            decreases self.state.services.len() - i,
        {
            let s = &self.state.services[i];
            assert(rows[i as int] == s@);
            if s.pid == Some(pid) && s.port == port && text::same(
                s.workspace_id.as_str(),
                workspace,
            ) {
                assert(at_key(workspace@, port)(rows[i as int]));
                return true;
            }
            i = i + 1;
        }
        false
    }

    /// What answering a request takes; manual entries are registered and removed
    /// at once.
    pub fn handle(&mut self, request: Request, own_pid: u32, now_ms: u64) -> (r: Task)
        requires
            old(self).wf(),
        ensures
            final(self).wf(),
            final(self).config == old(self).config,
            final(self).reporter == old(self).reporter,
            final(self).advertisements == old(self).advertisements,
            final(self).shell_pids == old(self).shell_pids,
            final(self).consecutive_failures == old(self).consecutive_failures,
            final(self).shutting_down == (old(self).shutting_down || request is Shutdown),
            final(self).state@ == match request {
                Request::Add { workspace, label, port, url } => StateView {
                    services: with_manual(
                        old(self).state@.services,
                        workspace@,
                        label@,
                        port,
                        match url {
                            Some(u) => u@,
                            None => inferred_url(old(self).config, port),
                        },
                        now_ms,
                    ),
                    ..old(self).state@
                },
                Request::Remove { label } => StateView {
                    services: without_manual(old(self).state@.services, label@),
                    ..old(self).state@
                },
                _ => old(self).state@,
            },
            match request {
                Request::Ping => r matches Task::Answer(a) && a@ == (ReplyView {
                    ok: true,
                    pid: Some(own_pid),
                    error: None,
                }),
                Request::Rescan => r matches Task::ScanThenAnswer(a) && a@ == granted(),
                Request::Add { .. } => r matches Task::ScanThenAnswer(a) && a@ == granted(),
                Request::Remove { label } => if has_label(old(self).state@.services, label@) {
                    r matches Task::ScanThenAnswer(a) && a@ == granted()
                } else {
                    r matches Task::Answer(a) && a@ == refused("no service labelled "@ + label@)
                },
                Request::Shutdown => r matches Task::Answer(a) && a@ == granted(),
                Request::Kill { workspace, port, pid, container, signal } => kill_answered(
                    old(self).state@.services,
                    workspace@,
                    port,
                    pid,
                    opt_text(container),
                    signal,
                    r,
                ),
            },
    {
        match request {
            Request::Ping => Task::Answer(Reply { ok: true, pid: Some(own_pid), error: None }),
            Request::Rescan => Task::ScanThenAnswer(Reply::granted()),
            Request::Kill { workspace, port, pid, container, signal } => {
                match self.kill(workspace.as_str(), port, pid, container, signal) {
                    Ok(e) => Task::End(e),
                    Err(m) => Task::Answer(Reply::refused(m)),
                }
            },
            Request::Add { workspace, label, port, url } => {
                let url: String = match url {
                    Some(u) => u,
                    None => self.config.url_for(port),
                };
                proof {
                    state::registering_keeps_one_row_per_key(
                        self.state@.services,
                        workspace@,
                        label@,
                        port,
                        url@,
                        now_ms,
                    );
                }
                self.state.upsert_manual(workspace, label, port, url, now_ms);
                Task::ScanThenAnswer(Reply::granted())
            },
            Request::Remove { label } => {
                proof {
                    state::removing_keeps_one_row_per_key(self.state@.services, label@);
                }
                if self.state.remove_manual(label.as_str()) {
                    Task::ScanThenAnswer(Reply::granted())
                } else {
                    let mut m: String = "no service labelled ".to_owned();
                    text::push_text(&mut m, label.as_str());
                    Task::Answer(Reply::refused(m))
                }
            },
            Request::Shutdown => {
                self.shutting_down = true;
                Task::Answer(Reply::granted())
            },
        }
    }
}

/// How a request to end a service is answered: it is ended only where it still
/// is what the last scan saw.
pub open spec fn kill_answered(
    rows: Seq<ServiceView>,
    ws: Seq<char>,
    port: u16,
    pid: Option<u32>,
    container: Option<Seq<char>>,
    signal: Signal,
    r: Task,
) -> bool {
    match (container, pid) {
        (Some(name), _) => if holds_container(rows, ws, port, name) {
            r matches Task::End(Ending::Container { args }) && texts(args@) == seq![
                docker_verb(signal),
                name,
            ]
        } else {
            r matches Task::Answer(a) && a@ == refused(
                no_such_service(ws, port, "container "@ + name),
            )
        },
        (None, Some(p)) => if holds_process(rows, ws, port, p) {
            r == Task::End(Ending::Process { pid: p, signal })
        } else {
            r matches Task::Answer(a) && a@ == refused(
                no_such_service(ws, port, "pid "@ + decimal_of(p as nat)),
            )
        },
        (None, None) => r matches Task::Answer(a) && a@ == refused(
            no_such_service(ws, port, "a process"@),
        ),
    }
}

/// What follows an attempt to end a service: a scan where it succeeded.
pub fn after_ending(result: Result<(), String>) -> (r: Task)
    ensures
        match result {
            Ok(_) => r matches Task::ScanThenAnswer(a) && a@ == granted(),
            Err(e) => r matches Task::Answer(a) && a@ == refused(e@),
        },
{
    match result {
        Ok(_) => Task::ScanThenAnswer(Reply::granted()),
        Err(e) => Task::Answer(Reply::refused(e)),
    }
}

impl Daemon {
    /// Whether the daemon ends after this answer.
    pub fn ends_after(&self, reply: &Reply) -> (r: bool)
        ensures
            r == (self.shutting_down && reply@ == granted()),
    {
        self.shutting_down && reply.ok && reply.pid.is_none() && reply.error.is_none()
    }
}

/// The process of a daemon that answered a ping; none where its socket is gone
/// or it did not answer yes.
pub fn live_daemon_pid(socket_exists: bool, reply: &Option<Reply>) -> (r: Option<u32>)
    ensures
        r == match reply {
            Some(a) => if socket_exists && a.ok {
                a.pid
            } else {
                None
            },
            None => None,
        },
{
    match reply {
        Some(a) => if socket_exists && a.ok {
            a.pid
        } else {
            None
        },
        None => None,
    }
}

/// The socket that decides over a session's directory: where it is gone, the
/// directory goes. The current session and one without a marker are left alone.
pub fn deciding_socket(dir: &str, current: &str, marker: &Option<String>) -> (r: Option<String>)
    ensures
        opt_text(r) == match marker {
            Some(m) => if dir@ == current@ {
                None
            } else {
                Some(trimmed(m@))
            },
            None => None,
        },
{
    match marker {
        Some(m) => if text::same(dir, current) {
            None
        } else {
            Some(text::trim(m.as_str()))
        },
        None => None,
    }
}

/// The events that cause a scan.
pub fn topology_events() -> (r: Vec<String>)
    ensures
        texts(r@) == seq!["pane.created"@, "pane.exited"@, "pane.closed"@, "workspace.closed"@],
{
    let r: Vec<String> = vec![
        "pane.created".to_owned(),
        "pane.exited".to_owned(),
        "pane.closed".to_owned(),
        "workspace.closed".to_owned(),
    ];
    assert(texts(r@) =~= seq![
        "pane.created"@,
        "pane.exited"@,
        "pane.closed"@,
        "workspace.closed"@,
    ]);
    r
}

// ---------------------------------------------------------------------------
// Laws
// ---------------------------------------------------------------------------

/// Nothing is ended but what the last scan saw at that place.
pub proof fn only_what_was_seen_is_ended(
    rows: Seq<ServiceView>,
    ws: Seq<char>,
    port: u16,
    pid: Option<u32>,
    container: Option<Seq<char>>,
    signal: Signal,
    r: Task,
)
    requires
        kill_answered(rows, ws, port, pid, container, signal, r),
    ensures
        r matches Task::End(Ending::Process { pid: p, .. }) ==> exists|i: int|
            0 <= i < rows.len() && at_key(ws, port)(#[trigger] rows[i]) && rows[i].pid == Some(p),
        r matches Task::End(Ending::Container { .. }) ==> exists|i: int|
            0 <= i < rows.len() && at_key(ws, port)(#[trigger] rows[i]) && rows[i].container is Some
                && rows[i].container == container,
        !(r is End) ==> (r matches Task::Answer(a) && !a.ok && a.error is Some),
{
}

proof fn lemma_with_label(labels: Seq<(Seq<char>, Seq<char>)>, id: Seq<char>, label: Seq<char>)
    requires
        text::ascending(labels.map_values(|p: (Seq<char>, Seq<char>)| p.0)),
    ensures
        text::ascending(
            with_label(labels, id, label).map_values(|p: (Seq<char>, Seq<char>)| p.0),
        ),
        forall|p: (Seq<char>, Seq<char>)| #[trigger]
            with_label(labels, id, label).contains(p) <==> p == (id, label) || (labels.contains(p)
                && p.0 != id),
    decreases labels.len(),
{
    let f = |p: (Seq<char>, Seq<char>)| p.0;
    let all = with_label(labels, id, label);
    let keys = labels.map_values(f);
    if labels.len() == 0 {
        assert(all[0] == (id, label));
    } else {
        let head = labels[0];
        let rest = labels.drop_first();
        assert(labels =~= seq![head] + rest);
        assert forall|i: int, j: int| 0 <= i < j < rest.map_values(f).len() implies lex_le(
            #[trigger] rest.map_values(f)[i],
            #[trigger] rest.map_values(f)[j],
        ) && rest.map_values(f)[i] != rest.map_values(f)[j] by {
            assert(lex_le(keys[i + 1], keys[j + 1]) && keys[i + 1] != keys[j + 1]);
        }
        assert forall|i: int| 0 <= i < rest.len() implies lex_le(head.0, (#[trigger] rest[i]).0)
            && head.0 != rest[i].0 by {
            assert(lex_le(keys[0], keys[i + 1]) && keys[0] != keys[i + 1]);
        }
        if head.0 == id {
            let ks = all.map_values(f);
            assert forall|i: int, j: int| 0 <= i < j < ks.len() implies lex_le(
                #[trigger] ks[i],
                #[trigger] ks[j],
            ) && ks[i] != ks[j] by {
                assert(lex_le(keys[i], keys[j]) && keys[i] != keys[j]);
                assert(ks[i] == keys[i] && ks[j] == keys[j]);
            }
            assert forall|p: (Seq<char>, Seq<char>)| #[trigger]
                all.contains(p) <==> p == (id, label) || (labels.contains(p) && p.0 != id) by {
                assert(all[0] == (id, label));
                if all.contains(p) {
                    let i = choose|i: int| 0 <= i < all.len() && all[i] == p;
                    if i > 0 {
                        assert(labels[i] == p);
                        assert(rest[i - 1] == p);
                    }
                }
                if labels.contains(p) && p.0 != id {
                    let i = choose|i: int| 0 <= i < labels.len() && labels[i] == p;
                    assert(all[i] == p);
                }
            }
        } else if lex_le(id, head.0) {
            let ks = all.map_values(f);
            assert forall|i: int, j: int| 0 <= i < j < ks.len() implies lex_le(
                #[trigger] ks[i],
                #[trigger] ks[j],
            ) && ks[i] != ks[j] by {
                if i == 0 {
                    assert(ks[j] == keys[j - 1]);
                    if j > 1 {
                        assert(lex_le(keys[0], keys[j - 1]) && keys[0] != keys[j - 1]);
                        text::lemma_lex_transitive(id, keys[0], keys[j - 1]);
                        if id == keys[j - 1] {
                            text::lemma_lex_antisymmetric(id, keys[0]);
                        }
                    }
                } else {
                    assert(ks[i] == keys[i - 1] && ks[j] == keys[j - 1]);
                    assert(lex_le(keys[i - 1], keys[j - 1]));
                }
            }
            assert forall|p: (Seq<char>, Seq<char>)| #[trigger]
                all.contains(p) <==> p == (id, label) || (labels.contains(p) && p.0 != id) by {
                assert(all[0] == (id, label));
                if all.contains(p) {
                    let i = choose|i: int| 0 <= i < all.len() && all[i] == p;
                    if i > 0 {
                        assert(labels[i - 1] == p);
                        assert(keys[i - 1] == p.0);
                        if i > 1 {
                            assert(lex_le(keys[0], keys[i - 1]) && keys[0] != keys[i - 1]);
                            if p.0 == id {
                                text::lemma_lex_antisymmetric(id, keys[0]);
                            }
                        }
                    }
                }
                if labels.contains(p) && p.0 != id {
                    let i = choose|i: int| 0 <= i < labels.len() && labels[i] == p;
                    assert(all[i + 1] == p);
                }
            }
        } else {
            lemma_with_label(rest, id, label);
            let tail = with_label(rest, id, label);
            let ks = all.map_values(f);
            assert forall|i: int, j: int| 0 <= i < j < ks.len() implies lex_le(
                #[trigger] ks[i],
                #[trigger] ks[j],
            ) && ks[i] != ks[j] by {
                assert(all[j] == tail[j - 1]);
                assert(tail.contains(tail[j - 1]));
                if i == 0 {
                    if tail[j - 1] == (id, label) {
                        text::lemma_lex_total(id, head.0);
                    } else {
                        assert(rest.contains(tail[j - 1]));
                        let k = choose|k: int| 0 <= k < rest.len() && rest[k] == tail[j - 1];
                        assert(lex_le(head.0, rest[k].0));
                    }
                } else {
                    assert(all[i] == tail[i - 1]);
                    assert(lex_le(tail.map_values(f)[i - 1], tail.map_values(f)[j - 1]));
                }
            }
            assert forall|p: (Seq<char>, Seq<char>)| #[trigger]
                all.contains(p) <==> p == (id, label) || (labels.contains(p) && p.0 != id) by {
                if all.contains(p) {
                    let i = choose|i: int| 0 <= i < all.len() && all[i] == p;
                    if i == 0 {
                        assert(labels[0] == p);
                    } else {
                        assert(tail[i - 1] == p);
                        assert(tail.contains(p));
                        if p != (id, label) {
                            let k = choose|k: int| 0 <= k < rest.len() && rest[k] == p;
                            assert(labels[k + 1] == p);
                        }
                    }
                }
                if p == (id, label) {
                    assert(tail.contains(p));
                    let i = choose|i: int| 0 <= i < tail.len() && tail[i] == p;
                    assert(all[i + 1] == p);
                } else if labels.contains(p) && p.0 != id {
                    let i = choose|i: int| 0 <= i < labels.len() && labels[i] == p;
                    if i == 0 {
                        assert(all[0] == p);
                    } else {
                        assert(rest[i - 1] == p);
                        assert(rest.contains(p));
                        assert(tail.contains(p));
                        let k = choose|k: int| 0 <= k < tail.len() && tail[k] == p;
                        assert(all[k + 1] == p);
                    }
                }
            }
        }
    }
}

/// The labels on file are those of the last workspace with each id, ids
/// ascending.
pub proof fn labels_are_by_id(ws: Seq<WorkspaceView>)
    ensures
        text::ascending(labels_of(ws).map_values(|p: (Seq<char>, Seq<char>)| p.0)),
        forall|p: (Seq<char>, Seq<char>)| #[trigger]
            labels_of(ws).contains(p) <==> exists|i: int|
                0 <= i < ws.len() && (#[trigger] ws[i]).workspace_id == p.0 && ws[i].label == p.1
                    && forall|j: int| i < j < ws.len() ==> (#[trigger] ws[j]).workspace_id != p.0,
    decreases ws.len(),
{
    if ws.len() > 0 {
        let t = ws.drop_last();
        let w = ws.last();
        labels_are_by_id(t);
        lemma_with_label(labels_of(t), w.workspace_id, w.label);
        assert forall|p: (Seq<char>, Seq<char>)| #[trigger]
            labels_of(ws).contains(p) <==> exists|i: int|
                0 <= i < ws.len() && (#[trigger] ws[i]).workspace_id == p.0 && ws[i].label == p.1
                    && forall|j: int| i < j < ws.len() ==> (#[trigger] ws[j]).workspace_id != p.0 by {
            if labels_of(ws).contains(p) {
                if p == (w.workspace_id, w.label) {
                    assert(ws[ws.len() - 1].workspace_id == p.0);
                } else {
                    assert(labels_of(t).contains(p));
                    let i = choose|i: int|
                        0 <= i < t.len() && (#[trigger] t[i]).workspace_id == p.0 && t[i].label
                            == p.1 && forall|j: int|
                            i < j < t.len() ==> (#[trigger] t[j]).workspace_id != p.0;
                    assert(ws[i] == t[i]);
                    assert forall|j: int| i < j < ws.len() implies (
                    #[trigger] ws[j]).workspace_id != p.0 by {
                        if j < t.len() {
                            assert(t[j] == ws[j]);
                        }
                    }
                }
            }
            if exists|i: int|
                0 <= i < ws.len() && (#[trigger] ws[i]).workspace_id == p.0 && ws[i].label == p.1
                    && forall|j: int| i < j < ws.len() ==> (#[trigger] ws[j]).workspace_id != p.0 {
                let i = choose|i: int|
                    0 <= i < ws.len() && (#[trigger] ws[i]).workspace_id == p.0 && ws[i].label
                        == p.1 && forall|j: int|
                        i < j < ws.len() ==> (#[trigger] ws[j]).workspace_id != p.0;
                if i < t.len() {
                    assert(ws[ws.len() - 1].workspace_id != p.0);
                    assert(t[i] == ws[i]);
                    assert forall|j: int| i < j < t.len() implies (
                    #[trigger] t[j]).workspace_id != p.0 by {
                        assert(t[j] == ws[j]);
                    }
                    assert(labels_of(t).contains(p));
                }
            }
        }
    }
}

/// A service that the last scan saw at a place is ended there, with the signal
/// that was asked for: a process by its id, a container by its name, stopped or
/// killed.
pub proof fn what_was_seen_is_ended_as_asked(
    rows: Seq<ServiceView>,
    k: int,
    pid: Option<u32>,
    container: Option<Seq<char>>,
    signal: Signal,
    r: Task,
)
    requires
        0 <= k < rows.len(),
        kill_answered(rows, rows[k].workspace_id, rows[k].port, pid, container, signal, r),
    ensures
        container is None && pid is Some && rows[k].pid == pid ==> r == Task::End(
            Ending::Process { pid: pid->0, signal },
        ),
        container is Some && rows[k].container == container ==> (r matches Task::End(
            Ending::Container { args },
        ) && texts(args@) == seq![
            if signal == Signal::Kill {
                "kill"@
            } else {
                "stop"@
            },
            container->0,
        ]),
{
    assert(at_key(rows[k].workspace_id, rows[k].port)(rows[k]));
    if container is None && pid is Some && rows[k].pid == pid {
        assert(holds_process(rows, rows[k].workspace_id, rows[k].port, pid->0));
    }
    if container is Some && rows[k].container == container {
        assert(holds_container(rows, rows[k].workspace_id, rows[k].port, container->0));
    }
}

/// What the last scan did not see at a place is not ended, and the answer says
/// what is missing there.
pub proof fn what_was_not_seen_is_refused(
    rows: Seq<ServiceView>,
    ws: Seq<char>,
    port: u16,
    pid: Option<u32>,
    container: Option<Seq<char>>,
    signal: Signal,
    r: Task,
)
    requires
        kill_answered(rows, ws, port, pid, container, signal, r),
        forall|i: int|
            0 <= i < rows.len() && (#[trigger] rows[i]).workspace_id == ws && rows[i].port == port
                ==> (container is Some ==> rows[i].container != container) && (container is None
                ==> pid is None || rows[i].pid != pid),
    ensures
        r matches Task::Answer(a) && !a.ok && a@.error == Some(
            "no attributed service "@ + ws + ":"@ + decimal_of(port as nat) + " with "@ + (
            if container is Some {
                "container "@ + container->0
            } else if pid is Some {
                "pid "@ + decimal_of(pid->0 as nat)
            } else {
                "a process"@
            }) + "; rescan and retry"@,
        ),
{
    if container is Some {
        assert(!holds_container(rows, ws, port, container->0));
    } else if pid is Some {
        assert(!holds_process(rows, ws, port, pid->0));
    }
}

/// A yes is a yes with no error, and a no comes with its error.
pub proof fn answers_are_yes_or_no(error: Seq<char>)
    ensures
        granted().ok,
        granted().error is None,
        !refused(error).ok,
        refused(error).error == Some(error),
{
}

/// The first event sets a scan two seconds on, unless one is due before; later
/// events change nothing, so that they cannot put it off.
pub proof fn the_first_event_sets_the_scan(s: Schedule, now: u64, later: u64)
    requires
        now <= later,
        later + 2000 <= u64::MAX,
    ensures
        s.pending_event is None ==> due_at(after_event(s, now)) == if s.next_scan < now + 2000 {
            s.next_scan as int
        } else {
            now + 2000
        },
        after_event(after_event(s, now), later) == after_event(s, now),
        due_at(s) <= s.next_scan,
        s.pending_event matches Some(at) ==> due_at(s) <= at,
        due_at(s) == s.next_scan || s.pending_event == Some(due_at(s)),
{
}

/// Each failure in a row doubles the pause, up to five times and up to five
/// minutes; without one it is the interval.
pub proof fn each_failure_doubles_the_pause(interval: u64, failures: u32)
    requires
        interval <= 300,
    ensures
        pause_of(interval, 0) == interval,
        pause_of(interval, 1) == if interval <= 150 {
            2 * interval
        } else {
            300
        },
        1 <= failures < 5 ==> pause_of(interval, (failures + 1) as u32) == if pause_of(
            interval,
            failures,
        ) <= 150 {
            2 * pause_of(interval, failures)
        } else {
            300
        },
        failures >= 5 ==> pause_of(interval, failures) == pause_of(interval, 5),
{
}

/// Attribution knows a pane by its id, its workspace, its shell as far as that
/// was learnt, and by both its directories.
pub proof fn a_pane_is_known_by_its_own(p: PaneInfo, shells: Map<Seq<char>, Option<u32>>)
    ensures
        pane_ref(p, shells).pane_id == p.pane_id,
        pane_ref(p, shells).workspace_id == p.workspace_id,
        shells.contains_key(p.pane_id) ==> pane_ref(p, shells).shell_pid == shells[p.pane_id],
        !shells.contains_key(p.pane_id) ==> pane_ref(p, shells).shell_pid is None,
        p.cwd is Some ==> pane_ref(p, shells).cwds.len() > 0 && pane_ref(p, shells).cwds[0]
            == p.cwd->0,
        p.foreground_cwd is Some && (p.cwd is None || names_of(p.cwd->0) != names_of(
            p.foreground_cwd->0,
        )) ==> pane_ref(p, shells).cwds.len() > 0 && pane_ref(p, shells).cwds.last()
            == p.foreground_cwd->0,
        forall|i: int|
            0 <= i < pane_ref(p, shells).cwds.len() ==> Some(
                #[trigger] pane_ref(p, shells).cwds[i],
            ) == p.cwd || Some(pane_ref(p, shells).cwds[i]) == p.foreground_cwd,
{
}

/// Attribution knows a workspace by its id, its label and its checkout.
pub proof fn a_workspace_is_known_by_its_own(w: Workspace)
    ensures
        workspace_ref(w).workspace_id == w.workspace_id@,
        workspace_ref(w).label == w.label@,
        w.worktree matches Some(t) ==> workspace_ref(w).checkout_path == Some(t.checkout_path@),
        w.worktree is None ==> workspace_ref(w).checkout_path is None,
{
}

/// Every pane whose shell was not asked for is asked for once, and no other.
pub proof fn every_unknown_shell_is_asked_for_once(
    panes: Seq<PaneInfo>,
    shells: Map<Seq<char>, Option<u32>>,
    id: Seq<char>,
)
    ensures
        unasked(panes, shells).contains(id) <==> !shells.contains_key(id) && exists|i: int|
            0 <= i < panes.len() && (#[trigger] panes[i]).pane_id == id,
        unasked(panes, shells).no_duplicates(),
    decreases panes.len(),
{
    if panes.len() > 0 {
        let front = panes.drop_last();
        let out = unasked(front, shells);
        let all = unasked(panes, shells);
        let last = panes.last().pane_id;
        every_unknown_shell_is_asked_for_once(front, shells, id);
        assert(panes[panes.len() - 1].pane_id == last);
        if all.contains(id) {
            let k = choose|k: int| 0 <= k < all.len() && all[k] == id;
            if k < out.len() {
                assert(out[k] == id);
                assert(out.contains(id));
                let i = choose|i: int| 0 <= i < front.len() && (#[trigger] front[i]).pane_id == id;
                assert(panes[i].pane_id == id);
            } else {
                assert(id == last);
            }
        }
        if !shells.contains_key(id) && exists|i: int|
            0 <= i < panes.len() && (#[trigger] panes[i]).pane_id == id {
            let i = choose|i: int| 0 <= i < panes.len() && (#[trigger] panes[i]).pane_id == id;
            if i < front.len() {
                assert(front[i].pane_id == id);
                let k = choose|k: int| 0 <= k < out.len() && out[k] == id;
                assert(all[k] == id);
            } else if out.contains(id) {
                let k = choose|k: int| 0 <= k < out.len() && out[k] == id;
                assert(all[k] == id);
            } else {
                assert(all[all.len() - 1] == id);
            }
        }
    }
}

} // verus!
