//! The service registry: how scans, manual entries and probes change it.

use vstd::prelude::*;

use crate::attribute::{Attribution, AttributionView};
use crate::order;
use crate::order::sorted;
use crate::seqs;
use crate::seqs::first_where;
use crate::text;
use crate::text::{opt_text, texts};

verus! {

/// Where a service entry comes from.
#[derive(Debug, Clone, Copy, PartialEq, Eq, Structural)]
pub enum Source {
    Detected,
    Advertised,
    Manual,
}

/// What the last connect probe said.
#[derive(Debug, Clone, Copy, PartialEq, Eq, Structural)]
pub enum Liveness {
    Unknown,
    Up,
    Down,
}

impl Default for Liveness {
    fn default() -> (r: Self)
        ensures
            r == Liveness::Unknown,
    {
        Liveness::Unknown
    }
}

/// One service of a workspace.
#[derive(Debug, PartialEq, Eq)]
pub struct Service {
    pub workspace_id: String,
    pub port: u16,
    pub host_hint: String,
    pub pid: Option<u32>,
    /// Docker container name; set for container-published ports.
    pub container: Option<String>,
    pub process_name: String,
    pub argv_summary: String,
    pub cwd: Option<String>,
    pub url: String,
    pub label: Option<String>,
    pub source: Source,
    pub attribution: Attribution,
    pub first_seen_ms: u64,
    pub last_seen_ms: u64,
    pub liveness: Liveness,
    /// Consecutive scans in which this detected service was absent.
    pub missed_scans: u8,
    /// The URL that a manual service was registered with, while an advertised
    /// one is shown in its place.
    pub pinned_url: Option<String>,
}

/// A [`Service`] with its texts as characters.
#[verifier::ext_equal]
pub struct ServiceView {
    pub workspace_id: Seq<char>,
    pub port: u16,
    pub host_hint: Seq<char>,
    pub pid: Option<u32>,
    pub container: Option<Seq<char>>,
    pub process_name: Seq<char>,
    pub argv_summary: Seq<char>,
    pub cwd: Option<Seq<char>>,
    pub url: Seq<char>,
    pub label: Option<Seq<char>>,
    pub source: Source,
    pub attribution: AttributionView,
    pub first_seen_ms: u64,
    pub last_seen_ms: u64,
    pub liveness: Liveness,
    pub missed_scans: u8,
    pub pinned_url: Option<Seq<char>>,
}

impl View for Service {
    type V = ServiceView;

    open spec fn view(&self) -> ServiceView {
        ServiceView {
            workspace_id: self.workspace_id@,
            port: self.port,
            host_hint: self.host_hint@,
            pid: self.pid,
            container: opt_text(self.container),
            process_name: self.process_name@,
            argv_summary: self.argv_summary@,
            cwd: opt_text(self.cwd),
            url: self.url@,
            label: opt_text(self.label),
            source: self.source,
            attribution: self.attribution@,
            first_seen_ms: self.first_seen_ms,
            last_seen_ms: self.last_seen_ms,
            liveness: self.liveness,
            missed_scans: self.missed_scans,
            pinned_url: opt_text(self.pinned_url),
        }
    }
}

impl Clone for Service {
    fn clone(&self) -> (r: Self)
        ensures
            r == *self,
    {
        Service {
            workspace_id: self.workspace_id.clone(),
            port: self.port,
            host_hint: self.host_hint.clone(),
            pid: self.pid,
            container: text::copy_opt(&self.container),
            process_name: self.process_name.clone(),
            argv_summary: self.argv_summary.clone(),
            cwd: text::copy_opt(&self.cwd),
            url: self.url.clone(),
            label: text::copy_opt(&self.label),
            source: self.source,
            attribution: self.attribution.clone(),
            first_seen_ms: self.first_seen_ms,
            last_seen_ms: self.last_seen_ms,
            liveness: self.liveness,
            missed_scans: self.missed_scans,
            pinned_url: text::copy_opt(&self.pinned_url),
        }
    }
}

/// One listener, process or container, that a scan saw and attribution accepted.
#[derive(Debug)]
pub struct Observed {
    pub workspace_id: String,
    pub port: u16,
    pub host_hint: String,
    /// Host process; `None` for containers.
    pub pid: Option<u32>,
    /// Docker container name when the listener is a published container port.
    pub container: Option<String>,
    pub process_name: String,
    pub argv_summary: String,
    pub cwd: Option<String>,
    pub url: String,
    pub advertised: bool,
    pub attribution: Attribution,
}

/// An [`Observed`] with its texts as characters.
#[verifier::ext_equal]
pub struct ObservedView {
    pub workspace_id: Seq<char>,
    pub port: u16,
    pub host_hint: Seq<char>,
    pub pid: Option<u32>,
    pub container: Option<Seq<char>>,
    pub process_name: Seq<char>,
    pub argv_summary: Seq<char>,
    pub cwd: Option<Seq<char>>,
    pub url: Seq<char>,
    pub advertised: bool,
    pub attribution: AttributionView,
}

impl View for Observed {
    type V = ObservedView;

    open spec fn view(&self) -> ObservedView {
        ObservedView {
            workspace_id: self.workspace_id@,
            port: self.port,
            host_hint: self.host_hint@,
            pid: self.pid,
            container: opt_text(self.container),
            process_name: self.process_name@,
            argv_summary: self.argv_summary@,
            cwd: opt_text(self.cwd),
            url: self.url@,
            advertised: self.advertised,
            attribution: self.attribution@,
        }
    }
}

impl Clone for Observed {
    fn clone(&self) -> (r: Self)
        ensures
            r == *self,
    {
        Observed {
            workspace_id: self.workspace_id.clone(),
            port: self.port,
            host_hint: self.host_hint.clone(),
            pid: self.pid,
            container: text::copy_opt(&self.container),
            process_name: self.process_name.clone(),
            argv_summary: self.argv_summary.clone(),
            cwd: text::copy_opt(&self.cwd),
            url: self.url.clone(),
            advertised: self.advertised,
            attribution: self.attribution.clone(),
        }
    }
}

/// A listener that no workspace owns, kept for the "other" group of the
/// all-workspaces view.
#[derive(Debug, PartialEq, Eq)]
pub struct Unattributed {
    pub port: u16,
    pub host_hint: String,
    pub pid: Option<u32>,
    pub process_name: String,
    pub argv_summary: String,
    pub cwd: Option<String>,
    pub container: Option<String>,
}

/// An [`Unattributed`] with its texts as characters.
#[verifier::ext_equal]
pub struct UnattributedView {
    pub port: u16,
    pub host_hint: Seq<char>,
    pub pid: Option<u32>,
    pub process_name: Seq<char>,
    pub argv_summary: Seq<char>,
    pub cwd: Option<Seq<char>>,
    pub container: Option<Seq<char>>,
}

impl View for Unattributed {
    type V = UnattributedView;

    open spec fn view(&self) -> UnattributedView {
        UnattributedView {
            port: self.port,
            host_hint: self.host_hint@,
            pid: self.pid,
            process_name: self.process_name@,
            argv_summary: self.argv_summary@,
            cwd: opt_text(self.cwd),
            container: opt_text(self.container),
        }
    }
}

impl Clone for Unattributed {
    fn clone(&self) -> (r: Self)
        ensures
            r == *self,
    {
        Unattributed {
            port: self.port,
            host_hint: self.host_hint.clone(),
            pid: self.pid,
            process_name: self.process_name.clone(),
            argv_summary: self.argv_summary.clone(),
            cwd: text::copy_opt(&self.cwd),
            container: text::copy_opt(&self.container),
        }
    }
}

/// What the daemon knows, as it is written for the picker.
#[derive(Debug)]
pub struct State {
    pub schema: u32,
    pub daemon_pid: u32,
    pub updated_ms: u64,
    pub scan_backend: String,
    pub last_scan_ms: u64,
    pub last_scan_duration_ms: u64,
    pub last_error: Option<String>,
    /// Workspace id and label, for display; ids ascend.
    pub workspace_labels: Vec<(String, String)>,
    pub services: Vec<Service>,
    pub unattributed: Vec<Unattributed>,
}

/// A [`State`] with its texts as characters.
#[verifier::ext_equal]
pub struct StateView {
    pub schema: u32,
    pub daemon_pid: u32,
    pub updated_ms: u64,
    pub scan_backend: Seq<char>,
    pub last_scan_ms: u64,
    pub last_scan_duration_ms: u64,
    pub last_error: Option<Seq<char>>,
    pub workspace_labels: Seq<(Seq<char>, Seq<char>)>,
    pub services: Seq<ServiceView>,
    pub unattributed: Seq<UnattributedView>,
}

/// The services of a vector, with their texts as characters.
pub open spec fn rows_of(v: Seq<Service>) -> Seq<ServiceView> {
    v.map_values(|s: Service| s@)
}

/// The observations of a vector, with their texts as characters.
pub open spec fn observed_of(v: Seq<Observed>) -> Seq<ObservedView> {
    v.map_values(|o: Observed| o@)
}

/// The unattributed listeners of a vector, with their texts as characters.
pub open spec fn unattributed_of(v: Seq<Unattributed>) -> Seq<UnattributedView> {
    v.map_values(|u: Unattributed| u@)
}

/// The pairs of a vector, with their texts as characters.
pub open spec fn pairs_of(v: Seq<(String, String)>) -> Seq<(Seq<char>, Seq<char>)> {
    v.map_values(|p: (String, String)| (p.0@, p.1@))
}

impl View for State {
    type V = StateView;

    open spec fn view(&self) -> StateView {
        StateView {
            schema: self.schema,
            daemon_pid: self.daemon_pid,
            updated_ms: self.updated_ms,
            scan_backend: self.scan_backend@,
            last_scan_ms: self.last_scan_ms,
            last_scan_duration_ms: self.last_scan_duration_ms,
            last_error: opt_text(self.last_error),
            workspace_labels: pairs_of(self.workspace_labels@),
            services: rows_of(self.services@),
            unattributed: unattributed_of(self.unattributed@),
        }
    }
}

/// Version of the state file.
pub const SCHEMA: u32 = 1;

/// A detected service survives fewer than this many consecutive scans without
/// a listener.
pub const MISS_GRACE: u8 = 2;

// ---------------------------------------------------------------------------
// What a scan does
// ---------------------------------------------------------------------------

/// The rows of workspace `ws` on `port`.
pub open spec fn at_key(ws: Seq<char>, port: u16) -> spec_fn(ServiceView) -> bool {
    |s: ServiceView| s.workspace_id == ws && s.port == port
}

/// A row at the start of a scan: one more miss, unless it is manual.
pub open spec fn aged(s: ServiceView) -> ServiceView {
    if s.source == Source::Manual || s.missed_scans == u8::MAX {
        s
    } else {
        ServiceView { missed_scans: (s.missed_scans + 1) as u8, ..s }
    }
}

/// The source of a row that was seen again. A manual row stays manual.
pub open spec fn source_seen(s: ServiceView, o: ObservedView) -> Source {
    if s.source == Source::Manual {
        Source::Manual
    } else if o.advertised {
        Source::Advertised
    } else if s.source == Source::Advertised && is_other(s, o) {
        Source::Detected
    } else {
        s.source
    }
}

/// Another process or container stands behind a row.
pub open spec fn is_other(s: ServiceView, o: ObservedView) -> bool {
    s.pid != o.pid || s.container != o.container
}

/// The URL of a row that was seen again. An advertised URL belongs to the
/// process that printed it; a manual one comes back once that is gone.
pub open spec fn url_seen(s: ServiceView, o: ObservedView) -> Seq<char> {
    if o.advertised || source_seen(s, o) == Source::Detected {
        o.url
    } else if s.source == Source::Manual && is_other(s, o) {
        registered_url(s)
    } else {
        s.url
    }
}

/// The URL that a manual row was registered with.
pub open spec fn registered_url(s: ServiceView) -> Seq<char> {
    match s.pinned_url {
        Some(u) => u,
        None => s.url,
    }
}

/// What a row that was seen again keeps of the URL that it was registered with.
pub open spec fn pinned_seen(s: ServiceView, o: ObservedView) -> Option<Seq<char>> {
    if s.source != Source::Manual {
        s.pinned_url
    } else if o.advertised {
        Some(registered_url(s))
    } else if is_other(s, o) {
        None
    } else {
        s.pinned_url
    }
}

/// A row that was seen again.
pub open spec fn seen(s: ServiceView, o: ObservedView, now: u64) -> ServiceView {
    ServiceView {
        pid: o.pid,
        container: o.container,
        process_name: o.process_name,
        argv_summary: o.argv_summary,
        cwd: o.cwd,
        host_hint: o.host_hint,
        attribution: o.attribution,
        last_seen_ms: now,
        missed_scans: 0,
        source: source_seen(s, o),
        url: url_seen(s, o),
        pinned_url: pinned_seen(s, o),
        ..s
    }
}

/// The row of a listener that was seen for the first time.
pub open spec fn first_seen(o: ObservedView, now: u64) -> ServiceView {
    ServiceView {
        workspace_id: o.workspace_id,
        port: o.port,
        host_hint: o.host_hint,
        pid: o.pid,
        container: o.container,
        process_name: o.process_name,
        argv_summary: o.argv_summary,
        cwd: o.cwd,
        url: o.url,
        label: None,
        source: if o.advertised {
            Source::Advertised
        } else {
            Source::Detected
        },
        attribution: o.attribution,
        first_seen_ms: now,
        last_seen_ms: now,
        liveness: Liveness::Unknown,
        missed_scans: 0,
        pinned_url: None,
    }
}

/// `rows` after one observation.
pub open spec fn merged(rows: Seq<ServiceView>, o: ObservedView, now: u64) -> Seq<ServiceView> {
    let i = first_where(rows, at_key(o.workspace_id, o.port)) as int;
    if i < rows.len() {
        rows.update(i, seen(rows[i], o, now))
    } else {
        rows.push(first_seen(o, now))
    }
}

/// `rows` after the observations of one scan, in their order.
pub open spec fn merged_all(rows: Seq<ServiceView>, os: Seq<ObservedView>, now: u64) -> Seq<
    ServiceView,
>
    decreases os.len(),
{
    if os.len() == 0 {
        rows
    } else {
        merged(merged_all(rows, os.drop_last(), now), os.last(), now)
    }
}

/// The rows that outlive a scan.
pub open spec fn stays() -> spec_fn(ServiceView) -> bool {
    |s: ServiceView| s.source == Source::Manual || s.missed_scans < MISS_GRACE
}

/// A row at the end of a scan: one that was missed has no process any more,
/// unless it is manual.
pub open spec fn faded(s: ServiceView) -> ServiceView {
    if s.missed_scans > 0 && s.source != Source::Manual {
        ServiceView { pid: None, container: None, ..s }
    } else {
        s
    }
}

/// Newest listener first, then by port.
pub open spec fn newest_first() -> spec_fn(ServiceView, ServiceView) -> bool {
    |a: ServiceView, b: ServiceView|
        a.first_seen_ms > b.first_seen_ms || (a.first_seen_ms == b.first_seen_ms && a.port
            <= b.port)
}

/// `rows` after a scan.
pub open spec fn after_scan(rows: Seq<ServiceView>, os: Seq<ObservedView>, now: u64) -> Seq<
    ServiceView,
> {
    let all = merged_all(rows.map_values(|s: ServiceView| aged(s)), os, now);
    sorted(all.filter(stays()).map_values(|s: ServiceView| faded(s)), newest_first())
}

fn age_services(services: &mut Vec<Service>)
    ensures
        rows_of(final(services)@) == rows_of(old(services)@).map_values(|s: ServiceView| aged(s)),
{
    let ghost before = services@;
    let mut i: usize = 0;
    while i < services.len()
        invariant
            i <= services@.len(),
            services@.len() == before.len(),
            forall|j: int| 0 <= j < i ==> (#[trigger] services@[j])@ == aged(before[j]@),
            forall|j: int| i <= j < before.len() ==> #[trigger] services@[j] == before[j],
        decreases services.len() - i,
    {
        if services[i].source != Source::Manual && services[i].missed_scans < u8::MAX {
            services[i].missed_scans = services[i].missed_scans + 1;
        }
        assert(services@[i as int]@ == aged(before[i as int]@));
        i = i + 1;
    }
    assert(rows_of(services@) =~= rows_of(before).map_values(|s: ServiceView| aged(s)));
}

fn fade_services(services: &mut Vec<Service>)
    ensures
        rows_of(final(services)@) == rows_of(old(services)@).map_values(|s: ServiceView| faded(s)),
{
    let ghost before = services@;
    let mut i: usize = 0;
    while i < services.len()
        invariant
            i <= services@.len(),
            services@.len() == before.len(),
            forall|j: int| 0 <= j < i ==> (#[trigger] services@[j])@ == faded(before[j]@),
            forall|j: int| i <= j < before.len() ==> #[trigger] services@[j] == before[j],
        decreases services.len() - i,
    {
        if services[i].source != Source::Manual && services[i].missed_scans > 0 {
            services[i].pid = None;
            services[i].container = None;
        }
        assert(services@[i as int]@ == faded(before[i as int]@));
        i = i + 1;
    }
    assert(rows_of(services@) =~= rows_of(before).map_values(|s: ServiceView| faded(s)));
}

/// The first row of `workspace_id` on `port`, or the length.
pub fn find_key(services: &Vec<Service>, workspace_id: &str, port: u16) -> (r: usize)
    ensures
        r == first_where(rows_of(services@), at_key(workspace_id@, port)),
        r <= services@.len(),
{
    let ghost p = at_key(workspace_id@, port);
    let r = seqs::find_where(
        services,
        |s: &Service| -> (b: bool)
            ensures
                b == p(s@)
            { s.port == port && text::same(s.workspace_id.as_str(), workspace_id) },
        Ghost(|s: Service| p(s@)),
    );
    proof {
        seqs::lemma_first_where_map(services@, |s: Service| s@, |s: Service| p(s@), p);
    }
    r
}

fn merge_service(services: &mut Vec<Service>, o: &Observed, now_ms: u64)
    ensures
        rows_of(final(services)@) == merged(rows_of(old(services)@), o@, now_ms),
{
    let ghost before = rows_of(services@);
    let i = find_key(services, o.workspace_id.as_str(), o.port);
    if i < services.len() {
        let changed = services[i].pid != o.pid || !text::same_opt(
            &services[i].container,
            &o.container,
        );
        services[i].pid = o.pid;
        services[i].container = text::copy_opt(&o.container);
        services[i].process_name = o.process_name.clone();
        services[i].argv_summary = o.argv_summary.clone();
        services[i].cwd = text::copy_opt(&o.cwd);
        services[i].host_hint = o.host_hint.clone();
        services[i].attribution = o.attribution.clone();
        services[i].last_seen_ms = now_ms;
        services[i].missed_scans = 0;
        let manual = services[i].source == Source::Manual;
        if o.advertised {
            if manual {
                if services[i].pinned_url.is_none() {
                    services[i].pinned_url = Some(services[i].url.clone());
                }
            } else {
                services[i].source = Source::Advertised;
            }
            services[i].url = o.url.clone();
        } else if manual {
            if changed {
                if let Some(u) = text::copy_opt(&services[i].pinned_url) {
                    services[i].url = u;
                    services[i].pinned_url = None;
                }
            }
        } else if changed && services[i].source == Source::Advertised {
            services[i].source = Source::Detected;
            services[i].url = o.url.clone();
        } else if services[i].source == Source::Detected {
            services[i].url = o.url.clone();
        }
        assert(services@[i as int]@ =~= seen(before[i as int], o@, now_ms));
        assert(rows_of(services@) =~= merged(before, o@, now_ms));
    } else {
        let source = if o.advertised {
            Source::Advertised
        } else {
            Source::Detected
        };
        services.push(
            Service {
                workspace_id: o.workspace_id.clone(),
                port: o.port,
                host_hint: o.host_hint.clone(),
                pid: o.pid,
                container: text::copy_opt(&o.container),
                process_name: o.process_name.clone(),
                argv_summary: o.argv_summary.clone(),
                cwd: text::copy_opt(&o.cwd),
                url: o.url.clone(),
                label: None,
                source,
                attribution: o.attribution.clone(),
                first_seen_ms: now_ms,
                last_seen_ms: now_ms,
                liveness: Liveness::Unknown,
                missed_scans: 0,
                pinned_url: None,
            },
        );
        assert(services@.last()@ =~= first_seen(o@, now_ms));
        assert(rows_of(services@) =~= merged(before, o@, now_ms));
    }
}

impl State {
    /// Applies one scan. Detected services absent from `observed` gather a miss
    /// and are dropped at [`MISS_GRACE`] of them; manual ones never disappear.
    pub fn apply_scan(&mut self, observed: Vec<Observed>, now_ms: u64)
        ensures
            final(self)@ == (StateView {
                services: after_scan(old(self)@.services, observed_of(observed@), now_ms),
                last_scan_ms: now_ms,
                updated_ms: now_ms,
                ..old(self)@
            }),
    {
        let ghost rows = rows_of(self.services@);
        let ghost os = observed_of(observed@);
        let ghost start = rows.map_values(|s: ServiceView| aged(s));
        let mut services: Vec<Service> = Vec::new();
        std::mem::swap(&mut services, &mut self.services);
        age_services(&mut services);
        let mut i: usize = 0;
        assert(os.take(0).len() == 0);
        while i < observed.len()
            invariant
                i <= observed@.len(),
                os == observed_of(observed@),
                rows_of(services@) == merged_all(start, os.take(i as int), now_ms),
            decreases observed.len() - i,
        {
            merge_service(&mut services, &observed[i], now_ms);
            proof {
                assert(os.take(i + 1).drop_last() =~= os.take(i as int));
                assert(os.take(i + 1).last() == os[i as int]);
            }
            i = i + 1;
        }
        proof {
            assert(os.take(i as int) =~= os);
            seqs::lemma_filter_map(
                services@,
                |s: Service| s@,
                |s: Service| stays()(s@),
                stays(),
            );
        }
        let mut services = seqs::retain(
            services,
            |s: &Service| -> (b: bool)
                ensures
                    b == stays()(s@)
                { s.source == Source::Manual || s.missed_scans < MISS_GRACE },
            Ghost(|s: Service| stays()(s@)),
        );
        fade_services(&mut services);
        proof {
            order::lemma_sorted_map(
                services@,
                |s: Service| s@,
                |a: Service, b: Service| newest_first()(a@, b@),
                newest_first(),
            );
        }
        self.services =
        order::sort(
            services,
            |a: &Service, b: &Service| -> (c: bool)
                ensures
                    c == newest_first()(a@, b@)
                {
                    a.first_seen_ms > b.first_seen_ms || (a.first_seen_ms == b.first_seen_ms
                        && a.port <= b.port)
                },
            Ghost(|a: Service, b: Service| newest_first()(a@, b@)),
        );
        self.last_scan_ms = now_ms;
        self.updated_ms = now_ms;
    }

    /// The services of `workspace_id`, in their order.
    pub fn services_for(&self, workspace_id: &str) -> (r: Vec<Service>)
        ensures
            rows_of(r@) == self@.services.filter(of_workspace(workspace_id@)),
    {
        let ghost p = of_workspace(workspace_id@);
        let ghost rows = rows_of(self.services@);
        let mut out: Vec<Service> = Vec::new();
        let mut i: usize = 0;
        proof {
            seqs::lemma_filter_push(rows, p, arbitrary());
            assert(rows.take(0) =~= Seq::<ServiceView>::empty());
            assert(rows_of(out@) =~= Seq::<ServiceView>::empty());
        }
        while i < self.services.len()
            invariant
                i <= self.services@.len(),
                rows == rows_of(self.services@),
                p == of_workspace(workspace_id@),
                rows_of(out@) == rows.take(i as int).filter(p),
            decreases self.services.len() - i,
        {
            proof {
                seqs::lemma_filter_step(rows, p, i as int);
            }
            if text::same(self.services[i].workspace_id.as_str(), workspace_id) {
                let ghost before = out@;
                out.push(self.services[i].clone());
                assert(rows_of(out@) =~= rows_of(before).push(rows[i as int]));
            }
            i = i + 1;
        }
        assert(rows.take(i as int) =~= rows);
        out
    }

    /// The workspaces that have a service, each once, in ascending order.
    pub fn workspace_ids(&self) -> (r: Vec<String>)
        ensures
            texts(r@) == ids_of(self@.services),
            text::ascending(texts(r@)),
            forall|id: Seq<char>| #[trigger] texts(r@).contains(id) <==> has_service(self@.services, id),
    {
        let ghost rows = self@.services;
        let ghost owners = owners_of(rows);
        let mut ids: Vec<String> = Vec::new();
        let mut i: usize = 0;
        assert(texts(ids@) =~= owners.take(0));
        while i < self.services.len()
            invariant
                i <= self.services@.len(),
                rows == rows_of(self.services@),
                owners == owners_of(rows),
                texts(ids@) == owners.take(i as int),
            decreases self.services.len() - i,
        {
            let ghost before = texts(ids@);
            ids.push(self.services[i].workspace_id.clone());
            assert(texts(ids@) =~= before.push(owners[i as int]));
            assert(texts(ids@) =~= owners.take(i + 1));
            i = i + 1;
        }
        assert(owners.take(i as int) =~= owners);
        let r = text::sorted_distinct(ids);
        proof {
            assert forall|id: Seq<char>| #[trigger]
                texts(r@).contains(id) <==> has_service(rows, id) by {
                if owners.contains(id) {
                    let j = choose|j: int| 0 <= j < owners.len() && owners[j] == id;
                    assert(rows[j].workspace_id == id);
                }
                if has_service(rows, id) {
                    let j = choose|i: int|
                        0 <= i < rows.len() && (#[trigger] rows[i]).workspace_id == id;
                    assert(owners[j] == id);
                }
            }
        }
        r
    }

    /// Registers a manual entry by its label. A label on file moves to the new
    /// place: a manual row that carried it goes, any other loses it. Where a
    /// row already stands at `(workspace_id, port)` the label attaches to it,
    /// else a manual row is made, which never disappears on its own.
    pub fn upsert_manual(
        &mut self,
        workspace_id: String,
        label: String,
        port: u16,
        url: String,
        now_ms: u64,
    )
        ensures
            final(self)@ == (StateView {
                services: with_manual(
                    old(self)@.services,
                    workspace_id@,
                    label@,
                    port,
                    url@,
                    now_ms,
                ),
                ..old(self)@
            }),
    {
        let mut services: Vec<Service> = Vec::new();
        std::mem::swap(&mut services, &mut self.services);
        let mut services = drop_label(services, label.as_str());
        let ghost before = rows_of(services@);
        let i = find_key(&services, workspace_id.as_str(), port);
        if i < services.len() {
            services[i].label = Some(label);
            services[i].last_seen_ms = now_ms;
            if services[i].source == Source::Manual {
                services[i].url = url;
                services[i].pinned_url = None;
            }
            proof {
                assert(services@[i as int]@ =~= labelled(before[i as int], label@, url@, now_ms));
                assert(rows_of(services@) =~= before.update(
                    i as int,
                    labelled(before[i as int], label@, url@, now_ms),
                ));
            }
        } else {
            let ghost row = manual_row(workspace_id@, label@, port, url@, now_ms);
            services.push(
                Service {
                    workspace_id,
                    port,
                    host_hint: "*".to_owned(),
                    pid: None,
                    container: None,
                    process_name: String::new(),
                    argv_summary: String::new(),
                    cwd: None,
                    url,
                    label: Some(label),
                    source: Source::Manual,
                    attribution: Attribution::Manual,
                    first_seen_ms: now_ms,
                    last_seen_ms: now_ms,
                    liveness: Liveness::Unknown,
                    missed_scans: 0,
                    pinned_url: None,
                },
            );
            proof {
                assert(services@.last()@ =~= row);
                assert(rows_of(services@) =~= before.push(row));
            }
        }
        self.services = services;
    }

    /// Removes a manual label: a manual row goes with it, any other row just
    /// loses it. Says whether the label was on file.
    pub fn remove_manual(&mut self, label: &str) -> (r: bool)
        ensures
            r == has_label(old(self)@.services, label@),
            final(self)@ == (StateView {
                services: without_manual(old(self)@.services, label@),
                ..old(self)@
            }),
    {
        let ghost p = carries(label@);
        let ghost before = rows_of(self.services@);
        let i = seqs::find_where(
            &self.services,
            |s: &Service| -> (b: bool)
                ensures
                    b == p(s@)
                { has_this_label(s, label) },
            Ghost(|s: Service| p(s@)),
        );
        proof {
            seqs::lemma_first_where_map(self.services@, |s: Service| s@, |s: Service| p(s@), p);
            seqs::lemma_first_where(before, p);
        }
        if i >= self.services.len() {
            return false;
        }
        if self.services[i].source == Source::Manual {
            let _ = self.services.remove(i);
            assert(rows_of(self.services@) =~= before.remove(i as int));
        } else {
            self.services[i].label = None;
            assert(self.services@[i as int]@ =~= unlabelled(before[i as int]));
            assert(rows_of(self.services@) =~= before.update(
                i as int,
                unlabelled(before[i as int]),
            ));
        }
        true
    }

    /// Records what the connect probes said, one answer for each service.
    pub fn probe_liveness(&mut self, up: &Vec<bool>)
        requires
            up@.len() == old(self)@.services.len(),
        ensures
            final(self)@ == (StateView {
                services: old(self)@.services.map(|i: int, s: ServiceView| probed(s, up@[i])),
                ..old(self)@
            }),
    {
        let ghost before = self.services@;
        let mut i: usize = 0;
        while i < self.services.len()
            invariant
                i <= self.services@.len(),
                self.services@.len() == before.len(),
                up@.len() == before.len(),
                self@ == (StateView { services: self@.services, ..old(self)@ }),
                forall|j: int|
                    0 <= j < i ==> (#[trigger] self.services@[j])@ == probed(before[j]@, up@[j]),
                forall|j: int| i <= j < before.len() ==> #[trigger] self.services@[j] == before[j],
            decreases self.services.len() - i,
        {
            self.services[i].liveness = if up[i] {
                Liveness::Up
            } else {
                Liveness::Down
            };
            assert(self.services@[i as int]@ == probed(before[i as int]@, up@[i as int]));
            i = i + 1;
        }
        assert(rows_of(self.services@) =~= rows_of(before).map(
            |i: int, s: ServiceView| probed(s, up@[i]),
        ));
    }
}

/// The registry before anything is known.
pub open spec fn blank() -> StateView {
    StateView {
        schema: 0,
        daemon_pid: 0,
        updated_ms: 0,
        scan_backend: seq![],
        last_scan_ms: 0,
        last_scan_duration_ms: 0,
        last_error: None,
        workspace_labels: seq![],
        services: seq![],
        unattributed: seq![],
    }
}

impl Default for State {
    fn default() -> (r: Self)
        ensures
            r@ == blank(),
    {
        State {
            schema: 0,
            daemon_pid: 0,
            updated_ms: 0,
            scan_backend: String::new(),
            last_scan_ms: 0,
            last_scan_duration_ms: 0,
            last_error: None,
            workspace_labels: Vec::new(),
            services: Vec::new(),
            unattributed: Vec::new(),
        }
    }
}

// ---------------------------------------------------------------------------
// Manual entries
// ---------------------------------------------------------------------------

/// The workspaces of these rows, row by row.
pub open spec fn owners_of(rows: Seq<ServiceView>) -> Seq<Seq<char>> {
    rows.map_values(|s: ServiceView| s.workspace_id)
}

/// The workspaces of these rows, each once, in ascending order.
pub open spec fn ids_of(rows: Seq<ServiceView>) -> Seq<Seq<char>> {
    text::sorted_set(owners_of(rows))
}

/// Some row belongs to this workspace.
pub open spec fn has_service(rows: Seq<ServiceView>, id: Seq<char>) -> bool {
    exists|i: int| 0 <= i < rows.len() && (#[trigger] rows[i]).workspace_id == id
}

/// The rows of workspace `ws`.
pub open spec fn of_workspace(ws: Seq<char>) -> spec_fn(ServiceView) -> bool {
    |s: ServiceView| s.workspace_id == ws
}

/// The rows with this label.
pub open spec fn carries(label: Seq<char>) -> spec_fn(ServiceView) -> bool {
    |s: ServiceView| s.label == Some(label)
}

/// Some row has this label.
pub open spec fn has_label(rows: Seq<ServiceView>, label: Seq<char>) -> bool {
    exists|i: int| 0 <= i < rows.len() && (#[trigger] rows[i]).label == Some(label)
}

/// A row without its label.
pub open spec fn unlabelled(s: ServiceView) -> ServiceView {
    ServiceView { label: None, ..s }
}

/// A row that a label attaches to. Only a manual row takes over the URL.
pub open spec fn labelled(s: ServiceView, label: Seq<char>, url: Seq<char>, now: u64) -> ServiceView {
    ServiceView {
        label: Some(label),
        last_seen_ms: now,
        url: if s.source == Source::Manual {
            url
        } else {
            s.url
        },
        pinned_url: if s.source == Source::Manual {
            None
        } else {
            s.pinned_url
        },
        ..s
    }
}

/// The row of a manual entry that no other row backs.
pub open spec fn manual_row(
    ws: Seq<char>,
    label: Seq<char>,
    port: u16,
    url: Seq<char>,
    now: u64,
) -> ServiceView {
    ServiceView {
        workspace_id: ws,
        port,
        host_hint: "*"@,
        pid: None,
        container: None,
        process_name: seq![],
        argv_summary: seq![],
        cwd: None,
        url,
        label: Some(label),
        source: Source::Manual,
        attribution: AttributionView::Manual,
        first_seen_ms: now,
        last_seen_ms: now,
        liveness: Liveness::Unknown,
        missed_scans: 0,
        pinned_url: None,
    }
}

/// The rows that stay when a label is taken away everywhere.
pub open spec fn outlives(label: Seq<char>) -> spec_fn(ServiceView) -> bool {
    |s: ServiceView| !(s.label == Some(label) && s.source == Source::Manual)
}

/// A row without this label.
pub open spec fn cleared(s: ServiceView, label: Seq<char>) -> ServiceView {
    if s.label == Some(label) {
        unlabelled(s)
    } else {
        s
    }
}

/// `rows` with a label taken away everywhere.
pub open spec fn without_label(rows: Seq<ServiceView>, label: Seq<char>) -> Seq<ServiceView> {
    rows.filter(outlives(label)).map_values(|s: ServiceView| cleared(s, label))
}

/// `rows` with a manual entry registered.
pub open spec fn with_manual(
    rows: Seq<ServiceView>,
    ws: Seq<char>,
    label: Seq<char>,
    port: u16,
    url: Seq<char>,
    now: u64,
) -> Seq<ServiceView> {
    let rest = without_label(rows, label);
    let i = first_where(rest, at_key(ws, port)) as int;
    if i < rest.len() {
        rest.update(i, labelled(rest[i], label, url, now))
    } else {
        rest.push(manual_row(ws, label, port, url, now))
    }
}

/// `rows` with the first row of this label gone, where it is manual, or
/// without its label, where it is not.
pub open spec fn without_manual(rows: Seq<ServiceView>, label: Seq<char>) -> Seq<ServiceView> {
    let i = first_where(rows, carries(label)) as int;
    if i >= rows.len() {
        rows
    } else if rows[i].source == Source::Manual {
        rows.remove(i)
    } else {
        rows.update(i, unlabelled(rows[i]))
    }
}

/// A row after a connect probe.
pub open spec fn probed(s: ServiceView, up: bool) -> ServiceView {
    ServiceView {
        liveness: if up {
            Liveness::Up
        } else {
            Liveness::Down
        },
        ..s
    }
}

fn has_this_label(s: &Service, label: &str) -> (r: bool)
    ensures
        r == carries(label@)(s@),
{
    match &s.label {
        Some(l) => text::same(l.as_str(), label),
        None => false,
    }
}

fn drop_label(services: Vec<Service>, label: &str) -> (r: Vec<Service>)
    ensures
        rows_of(r@) == without_label(rows_of(services@), label@),
{
    let ghost p = outlives(label@);
    proof {
        seqs::lemma_filter_map(services@, |s: Service| s@, |s: Service| p(s@), p);
    }
    let mut out = seqs::retain(
        services,
        |s: &Service| -> (b: bool)
            ensures
                b == p(s@)
            { !(s.source == Source::Manual && has_this_label(s, label)) },
        Ghost(|s: Service| p(s@)),
    );
    let ghost before = out@;
    let mut i: usize = 0;
    while i < out.len()
        invariant
            i <= out@.len(),
            out@.len() == before.len(),
            forall|j: int| 0 <= j < i ==> (#[trigger] out@[j])@ == cleared(before[j]@, label@),
            forall|j: int| i <= j < before.len() ==> #[trigger] out@[j] == before[j],
        decreases out.len() - i,
    {
        if has_this_label(&out[i], label) {
            out[i].label = None;
        }
        assert(out@[i as int]@ == cleared(before[i as int]@, label@));
        i = i + 1;
    }
    assert(rows_of(out@) =~= rows_of(before).map_values(|s: ServiceView| cleared(s, label@)));
    out
}

// ---------------------------------------------------------------------------
// Laws
// ---------------------------------------------------------------------------

/// Two rows that do not stand at the same place.
pub open spec fn apart() -> spec_fn(ServiceView, ServiceView) -> bool {
    |a: ServiceView, b: ServiceView| !(a.workspace_id == b.workspace_id && a.port == b.port)
}

/// No two rows stand at the same workspace and port.
pub open spec fn one_row_per_key(rows: Seq<ServiceView>) -> bool {
    order::in_order(rows, apart())
}

/// No two observations are of the same workspace and port.
pub open spec fn one_observation_per_key(os: Seq<ObservedView>) -> bool {
    forall|i: int, j: int|
        0 <= i < j < os.len() ==> !((#[trigger] os[i]).workspace_id == (
        #[trigger] os[j]).workspace_id && os[i].port == os[j].port)
}

/// The row of workspace `ws` on `port`.
pub open spec fn row_at(rows: Seq<ServiceView>, ws: Seq<char>, port: u16) -> Option<ServiceView> {
    let i = first_where(rows, at_key(ws, port)) as int;
    if i < rows.len() {
        Some(rows[i])
    } else {
        None
    }
}

/// The observations of workspace `ws` on `port`.
pub open spec fn observed_at(ws: Seq<char>, port: u16) -> spec_fn(ObservedView) -> bool {
    |o: ObservedView| o.workspace_id == ws && o.port == port
}

/// What becomes of one row, where there is one, under the observations of its
/// place, in their order.
pub open spec fn met(row: Option<ServiceView>, os: Seq<ObservedView>, now: u64) -> Option<
    ServiceView,
>
    decreases os.len(),
{
    if os.len() == 0 {
        row
    } else {
        match met(row, os.drop_last(), now) {
            Some(r) => Some(seen(r, os.last(), now)),
            None => Some(first_seen(os.last(), now)),
        }
    }
}

/// What a scan makes of one place, from the row that stood there and what was
/// observed there.
pub open spec fn scanned(row: Option<ServiceView>, os: Seq<ObservedView>, now: u64) -> Option<
    ServiceView,
> {
    let start = match row {
        Some(r) => Some(aged(r)),
        None => None,
    };
    match met(start, os, now) {
        Some(r) => if stays()(r) {
            Some(faded(r))
        } else {
            None
        },
        None => None,
    }
}

proof fn lemma_row_at(rows: Seq<ServiceView>, ws: Seq<char>, port: u16)
    ensures
        row_at(rows, ws, port) is None <==> forall|i: int|
            0 <= i < rows.len() ==> !at_key(ws, port)(#[trigger] rows[i]),
        row_at(rows, ws, port) matches Some(r) ==> at_key(ws, port)(r) && rows.contains(r),
        one_row_per_key(rows) ==> forall|r: ServiceView| #[trigger]
            rows.contains(r) && at_key(ws, port)(r) ==> row_at(rows, ws, port) == Some(r),
{
    let p = at_key(ws, port);
    seqs::lemma_first_where(rows, p);
    let k = first_where(rows, p) as int;
    if one_row_per_key(rows) {
        assert forall|r: ServiceView| #[trigger]
            rows.contains(r) && p(r) implies row_at(rows, ws, port) == Some(r) by {
            let i = choose|i: int| 0 <= i < rows.len() && rows[i] == r;
            assert(p(rows[i]));
            if k < i {
                assert(apart()(rows[k], rows[i]));
            }
        }
    }
}

proof fn lemma_same_rows(a: Seq<ServiceView>, b: Seq<ServiceView>, ws: Seq<char>, port: u16)
    requires
        one_row_per_key(a),
        one_row_per_key(b),
        forall|r: ServiceView| at_key(ws, port)(r) ==> (#[trigger] a.contains(r) <==> b.contains(r)),
    ensures
        row_at(a, ws, port) == row_at(b, ws, port),
{
    lemma_row_at(a, ws, port);
    lemma_row_at(b, ws, port);
    if let Some(r) = row_at(a, ws, port) {
        assert(a.contains(r));
    } else if let Some(r) = row_at(b, ws, port) {
        assert(b.contains(r));
        assert(a.contains(r));
        let i = choose|i: int| 0 <= i < a.len() && a[i] == r;
        assert(!at_key(ws, port)(a[i]));
    }
}

/// A change of rows that moves none leaves the places as they are.
proof fn lemma_mapped_rows(
    rows: Seq<ServiceView>,
    f: spec_fn(ServiceView) -> ServiceView,
    ws: Seq<char>,
    port: u16,
)
    requires
        forall|s: ServiceView|
            (#[trigger] f(s)).workspace_id == s.workspace_id && f(s).port == s.port,
    ensures
        row_at(rows.map_values(f), ws, port) == (match row_at(rows, ws, port) {
            Some(r) => Some(f(r)),
            None => None,
        }),
        one_row_per_key(rows) ==> one_row_per_key(rows.map_values(f)),
{
    let p = at_key(ws, port);
    let m = rows.map_values(f);
    assert forall|x: ServiceView| #[trigger] p(x) == p(f(x)) by {
        assert(f(x).port == x.port);
    }
    seqs::lemma_first_where_map(rows, f, p, p);
    if one_row_per_key(rows) {
        assert forall|i: int, j: int| 0 <= i < j < m.len() implies apart()(
            #[trigger] m[i],
            #[trigger] m[j],
        ) by {
            assert(apart()(rows[i], rows[j]));
            assert(f(rows[i]).port == rows[i].port && f(rows[j]).port == rows[j].port);
        }
    }
}

proof fn lemma_merged_at(
    rows: Seq<ServiceView>,
    o: ObservedView,
    now: u64,
    ws: Seq<char>,
    port: u16,
)
    ensures
        row_at(merged(rows, o, now), ws, port) == if o.workspace_id == ws && o.port == port {
            match row_at(rows, ws, port) {
                Some(r) => Some(seen(r, o, now)),
                None => Some(first_seen(o, now)),
            }
        } else {
            row_at(rows, ws, port)
        },
        one_row_per_key(rows) ==> one_row_per_key(merged(rows, o, now)),
{
    let p = at_key(ws, port);
    let q = at_key(o.workspace_id, o.port);
    let i = first_where(rows, q) as int;
    let m = merged(rows, o, now);
    seqs::lemma_first_where(rows, q);
    seqs::lemma_first_where(rows, p);
    let k = first_where(rows, p) as int;
    if i < rows.len() {
        assert forall|j: int| 0 <= j < rows.len() implies #[trigger] p(m[j]) == p(rows[j]) by {
            assert(q(rows[i]));
        }
        assert forall|j: int| 0 <= j < k implies !p(#[trigger] m[j]) by {
            assert(!p(rows[j]));
        }
        seqs::lemma_first_where_unique(m, p, k);
        if k < rows.len() && k == i {
            assert(p(rows[i]) && q(rows[i]));
        }
        if one_row_per_key(rows) {
            assert forall|a: int, b: int| 0 <= a < b < m.len() implies apart()(
                #[trigger] m[a],
                #[trigger] m[b],
            ) by {
                assert(apart()(rows[a], rows[b]));
            }
        }
    } else {
        assert forall|j: int| 0 <= j < k implies !p(#[trigger] m[j]) by {
            assert(m[j] == rows[j]);
        }
        if k < rows.len() {
            assert(m[k] == rows[k]);
            assert(p(rows[k]) && !q(rows[k]));
            seqs::lemma_first_where_unique(m, p, k);
        } else if o.workspace_id == ws && o.port == port {
            seqs::lemma_first_where_unique(m, p, k);
        } else {
            assert forall|j: int| 0 <= j < k + 1 implies !p(#[trigger] m[j]) by {
                if j < k {
                    assert(m[j] == rows[j]);
                }
            }
            seqs::lemma_first_where_unique(m, p, k + 1);
        }
        if one_row_per_key(rows) {
            assert forall|a: int, b: int| 0 <= a < b < m.len() implies apart()(
                #[trigger] m[a],
                #[trigger] m[b],
            ) by {
                if b == rows.len() {
                    assert(!q(rows[a]));
                } else {
                    assert(apart()(rows[a], rows[b]));
                }
            }
        }
    }
}

proof fn lemma_merged_all_at(
    rows: Seq<ServiceView>,
    os: Seq<ObservedView>,
    now: u64,
    ws: Seq<char>,
    port: u16,
)
    ensures
        one_row_per_key(rows) ==> one_row_per_key(merged_all(rows, os, now)),
        row_at(merged_all(rows, os, now), ws, port) == met(
            row_at(rows, ws, port),
            os.filter(observed_at(ws, port)),
            now,
        ),
    decreases os.len(),
{
    let q = observed_at(ws, port);
    if os.len() > 0 {
        let t = os.drop_last();
        let o = os.last();
        lemma_merged_all_at(rows, t, now, ws, port);
        lemma_merged_at(merged_all(rows, t, now), o, now, ws, port);
        seqs::lemma_filter_push(t, q, o);
        assert(t.push(o) =~= os);
        if q(o) {
            assert(os.filter(q).drop_last() =~= t.filter(q));
        }
    } else {
        seqs::lemma_filter_push(os, q, arbitrary());
        assert(os.filter(q).len() == 0);
    }
}

/// A scan keeps one row for each workspace and port.
pub proof fn a_scan_keeps_one_row_per_key(
    rows: Seq<ServiceView>,
    os: Seq<ObservedView>,
    now: u64,
)
    requires
        one_row_per_key(rows),
    ensures
        one_row_per_key(after_scan(rows, os, now)),
{
    let f = |s: ServiceView| aged(s);
    let g = |s: ServiceView| faded(s);
    let all = merged_all(rows.map_values(f), os, now);
    lemma_mapped_rows(rows, f, seq![], 0);
    lemma_merged_all_at(rows.map_values(f), os, now, seq![], 0);
    order::lemma_filter_pairwise(all, stays(), apart());
    lemma_mapped_rows(all.filter(stays()), g, seq![], 0);
    order::lemma_sorted_pairwise(all.filter(stays()).map_values(g), newest_first(), apart());
}

/// A scan treats each workspace and port on its own: what stands there after
/// it depends only on what stood there and on what was observed there.
pub proof fn a_scan_treats_each_key_alone(
    rows: Seq<ServiceView>,
    os: Seq<ObservedView>,
    now: u64,
    ws: Seq<char>,
    port: u16,
)
    requires
        one_row_per_key(rows),
    ensures
        row_at(after_scan(rows, os, now), ws, port) == scanned(
            row_at(rows, ws, port),
            os.filter(observed_at(ws, port)),
            now,
        ),
{
    let f = |s: ServiceView| aged(s);
    let g = |s: ServiceView| faded(s);
    let start = rows.map_values(f);
    let all = merged_all(start, os, now);
    let kept = all.filter(stays());
    let last = kept.map_values(g);
    lemma_mapped_rows(rows, f, ws, port);
    lemma_merged_all_at(start, os, now, ws, port);
    order::lemma_filter_pairwise(all, stays(), apart());
    seqs::lemma_filter_members(all, stays());
    lemma_row_at(all, ws, port);
    lemma_row_at(kept, ws, port);
    match row_at(all, ws, port) {
        Some(r) => {
            assert(all.contains(r));
            if stays()(r) {
                assert(kept.contains(r));
                assert(row_at(kept, ws, port) == Some(r));
            } else if let Some(q) = row_at(kept, ws, port) {
                assert(kept.contains(q));
                assert(all.contains(q));
            }
        },
        None => {
            if let Some(q) = row_at(kept, ws, port) {
                assert(kept.contains(q));
                let i = choose|i: int| 0 <= i < all.len() && all[i] == q;
                assert(!at_key(ws, port)(all[i]));
            }
        },
    }
    lemma_mapped_rows(kept, g, ws, port);
    order::lemma_sorted_pairwise(last, newest_first(), apart());
    order::sorting_keeps_the_elements(last, newest_first());
    lemma_same_rows(sorted(last, newest_first()), last, ws, port);
}

proof fn lemma_met_manual(r: ServiceView, os: Seq<ObservedView>, now: u64)
    requires
        r.source == Source::Manual,
    ensures
        met(Some(r), os, now) matches Some(s) && {
            &&& s.source == Source::Manual
            &&& s.label == r.label
            &&& s.missed_scans == 0 || s.missed_scans == r.missed_scans
            &&& registered_url(s) == registered_url(r)
            &&& os.len() > 0 && os.last().advertised ==> s.url == os.last().url
            &&& none_advertised(os) ==> if same_process(r, os) {
                s.url == r.url && s.pinned_url == r.pinned_url && s.pid == r.pid && s.container
                    == r.container
            } else {
                s.url == registered_url(r) && s.pinned_url is None
            }
        },
    decreases os.len(),
{
    if os.len() > 0 {
        let t = os.drop_last();
        let o = os.last();
        lemma_met_manual(r, t, now);
        if none_advertised(os) {
            assert forall|i: int| 0 <= i < t.len() implies !(#[trigger] t[i]).advertised by {
                assert(t[i] == os[i]);
            }
            assert(!os[os.len() - 1].advertised);
            lemma_same_process(r, os);
        }
    }
}

proof fn lemma_same_process(r: ServiceView, os: Seq<ObservedView>)
    requires
        os.len() > 0,
    ensures
        same_process(r, os) == (same_process(r, os.drop_last()) && os.last().pid == r.pid
            && os.last().container == r.container),
{
    let t = os.drop_last();
    let o = os.last();
    if same_process(r, os) {
        assert forall|i: int| 0 <= i < t.len() implies (#[trigger] t[i]).pid == r.pid
            && t[i].container == r.container by {
            assert(t[i] == os[i]);
        }
        assert(os[os.len() - 1].pid == r.pid);
    }
    if same_process(r, t) && o.pid == r.pid && o.container == r.container {
        assert forall|i: int| 0 <= i < os.len() implies (#[trigger] os[i]).pid == r.pid
            && os[i].container == r.container by {
            if i < t.len() {
                assert(t[i] == os[i]);
            }
        }
    }
}

/// No observation comes with an advertised URL.
pub open spec fn none_advertised(os: Seq<ObservedView>) -> bool {
    forall|i: int| 0 <= i < os.len() ==> !(#[trigger] os[i]).advertised
}

proof fn lemma_met_some(r: ServiceView, os: Seq<ObservedView>, now: u64)
    requires
        os.len() > 0,
    ensures
        met(Some(r), os, now) matches Some(s) && {
            &&& s.label == r.label
            &&& s.first_seen_ms == r.first_seen_ms
            &&& s.liveness == r.liveness
            &&& s.missed_scans == 0
            &&& s.last_seen_ms == now
        },
    decreases os.len(),
{
    if os.len() > 1 {
        lemma_met_some(r, os.drop_last(), now);
    } else {
        assert(met(Some(r), os.drop_last(), now) == Some(r));
    }
}

proof fn lemma_met_advertised(r: ServiceView, os: Seq<ObservedView>, now: u64)
    requires
        r.source == Source::Advertised,
        none_advertised(os),
    ensures
        met(Some(r), os, now) matches Some(s) && if same_process(r, os) {
            s.url == r.url && s.source == Source::Advertised && s.pid == r.pid && s.container
                == r.container
        } else {
            s.url == os.last().url && s.source == Source::Detected
        },
    decreases os.len(),
{
    if os.len() > 0 {
        let t = os.drop_last();
        assert forall|i: int| 0 <= i < t.len() implies !(#[trigger] t[i]).advertised by {
            assert(t[i] == os[i]);
        }
        assert(!os[os.len() - 1].advertised);
        lemma_met_advertised(r, t, now);
        lemma_same_process(r, os);
    }
}

/// Every observation is of the process or container of row `r`.
pub open spec fn same_process(r: ServiceView, os: Seq<ObservedView>) -> bool {
    forall|i: int|
        0 <= i < os.len() ==> (#[trigger] os[i]).pid == r.pid && os[i].container == r.container
}

/// A manual service never disappears in a scan, stays manual and keeps its
/// label and the URL that it was registered with, whatever is observed. Nothing
/// of it changes while nothing is observed at its place.
pub proof fn manual_services_stay(
    rows: Seq<ServiceView>,
    os: Seq<ObservedView>,
    now: u64,
    ws: Seq<char>,
    port: u16,
)
    requires
        one_row_per_key(rows),
        row_at(rows, ws, port) matches Some(r) && r.source == Source::Manual,
    ensures
        row_at(after_scan(rows, os, now), ws, port) matches Some(s) && {
            let r = row_at(rows, ws, port)->0;
            &&& s.source == Source::Manual
            &&& s.label == r.label
            &&& registered_url(s) == registered_url(r)
            &&& os.filter(observed_at(ws, port)).len() == 0 ==> s == r
        },
{
    a_scan_treats_each_key_alone(rows, os, now, ws, port);
    lemma_met_manual(row_at(rows, ws, port)->0, os.filter(observed_at(ws, port)), now);
}

/// A manual service shows an advertised URL as long as the process behind it
/// stays, and the one that it was registered with once another is there.
pub proof fn a_manual_service_comes_back_to_its_url(
    rows: Seq<ServiceView>,
    os: Seq<ObservedView>,
    now: u64,
    ws: Seq<char>,
    port: u16,
)
    requires
        one_row_per_key(rows),
        row_at(rows, ws, port) matches Some(r) && r.source == Source::Manual,
        os.filter(observed_at(ws, port)).len() > 0,
    ensures
        row_at(after_scan(rows, os, now), ws, port) matches Some(s) && {
            let r = row_at(rows, ws, port)->0;
            let here = os.filter(observed_at(ws, port));
            &&& here.last().advertised ==> s.url == here.last().url
            &&& none_advertised(here) ==> s.url == if same_process(r, here) {
                r.url
            } else {
                registered_url(r)
            }
        },
{
    a_scan_treats_each_key_alone(rows, os, now, ws, port);
    lemma_met_manual(row_at(rows, ws, port)->0, os.filter(observed_at(ws, port)), now);
}

/// A detected service that was there in the last scan survives the first that
/// misses it, without its process, and is gone after the second.
pub proof fn a_detected_service_survives_one_miss(
    rows: Seq<ServiceView>,
    first: Seq<ObservedView>,
    second: Seq<ObservedView>,
    t1: u64,
    t2: u64,
    ws: Seq<char>,
    port: u16,
)
    requires
        one_row_per_key(rows),
        first.filter(observed_at(ws, port)).len() == 0,
        second.filter(observed_at(ws, port)).len() == 0,
        row_at(rows, ws, port) matches Some(r) && r.source != Source::Manual && r.missed_scans == 0,
    ensures
        row_at(after_scan(rows, first, t1), ws, port) == Some(
            ServiceView {
                missed_scans: 1,
                pid: None,
                container: None,
                ..row_at(rows, ws, port)->0
            },
        ),
        row_at(after_scan(after_scan(rows, first, t1), second, t2), ws, port) is None,
{
    a_scan_keeps_one_row_per_key(rows, first, t1);
    a_scan_treats_each_key_alone(rows, first, t1, ws, port);
    a_scan_treats_each_key_alone(after_scan(rows, first, t1), second, t2, ws, port);
}

/// A service that is seen again, however often, keeps its label, its first
/// sighting and its liveness, and has no miss any more.
pub proof fn a_service_seen_again_keeps_its_history(
    rows: Seq<ServiceView>,
    os: Seq<ObservedView>,
    now: u64,
    ws: Seq<char>,
    port: u16,
)
    requires
        one_row_per_key(rows),
        row_at(rows, ws, port) is Some,
        os.filter(observed_at(ws, port)).len() > 0,
    ensures
        row_at(after_scan(rows, os, now), ws, port) matches Some(s) && {
            let r = row_at(rows, ws, port)->0;
            &&& s.label == r.label
            &&& s.first_seen_ms == r.first_seen_ms
            &&& s.liveness == r.liveness
            &&& s.missed_scans == 0
            &&& s.last_seen_ms == now
        },
{
    a_scan_treats_each_key_alone(rows, os, now, ws, port);
    lemma_met_some(aged(row_at(rows, ws, port)->0), os.filter(observed_at(ws, port)), now);
}

/// An advertised URL stays with the process or container that it was
/// advertised for, and goes with it.
pub proof fn an_advertised_url_lasts_as_long_as_its_process(
    rows: Seq<ServiceView>,
    os: Seq<ObservedView>,
    now: u64,
    ws: Seq<char>,
    port: u16,
)
    requires
        one_row_per_key(rows),
        row_at(rows, ws, port) matches Some(r) && r.source == Source::Advertised,
        os.filter(observed_at(ws, port)).len() > 0,
        none_advertised(os.filter(observed_at(ws, port))),
    ensures
        row_at(after_scan(rows, os, now), ws, port) matches Some(s) && {
            let r = row_at(rows, ws, port)->0;
            let here = os.filter(observed_at(ws, port));
            if same_process(r, here) {
                s.url == r.url && s.source == Source::Advertised
            } else {
                s.url == here.last().url && s.source == Source::Detected
            }
        },
{
    let r = row_at(rows, ws, port)->0;
    let here = os.filter(observed_at(ws, port));
    a_scan_treats_each_key_alone(rows, os, now, ws, port);
    lemma_met_some(aged(r), here, now);
    lemma_met_advertised(aged(r), here, now);
    assert(same_process(aged(r), here) == same_process(r, here));
}

/// After a scan the newest listeners stand first.
pub proof fn a_scan_puts_the_newest_first(rows: Seq<ServiceView>, os: Seq<ObservedView>, now: u64)
    ensures
        order::in_order(after_scan(rows, os, now), newest_first()),
{
    let all = merged_all(rows.map_values(|s: ServiceView| aged(s)), os, now);
    order::sorting_gives_an_order(
        all.filter(stays()).map_values(|s: ServiceView| faded(s)),
        newest_first(),
    );
}

/// No two rows carry the same label.
pub open spec fn labels_are_distinct(rows: Seq<ServiceView>) -> bool {
    order::in_order(
        rows,
        |a: ServiceView, b: ServiceView| a.label is None || a.label != b.label,
    )
}

/// Registering a manual entry keeps one row for each workspace and port.
pub proof fn registering_keeps_one_row_per_key(
    rows: Seq<ServiceView>,
    ws: Seq<char>,
    label: Seq<char>,
    port: u16,
    url: Seq<char>,
    now: u64,
)
    requires
        one_row_per_key(rows),
    ensures
        one_row_per_key(with_manual(rows, ws, label, port, url, now)),
{
    let f = |s: ServiceView| cleared(s, label);
    let rest = without_label(rows, label);
    let after = with_manual(rows, ws, label, port, url, now);
    order::lemma_filter_pairwise(rows, outlives(label), apart());
    lemma_mapped_rows(rows.filter(outlives(label)), f, ws, port);
    seqs::lemma_first_where(rest, at_key(ws, port));
    assert forall|a: int, b: int| 0 <= a < b < after.len() implies apart()(
        #[trigger] after[a],
        #[trigger] after[b],
    ) by {
        if b < rest.len() {
            assert(apart()(rest[a], rest[b]));
        } else {
            assert(!at_key(ws, port)(rest[a]));
        }
    }
}

proof fn lemma_label_cleared(rows: Seq<ServiceView>, label: Seq<char>)
    ensures
        forall|i: int|
            0 <= i < without_label(rows, label).len() ==> (#[trigger] without_label(
                rows,
                label,
            )[i]).label != Some(label),
{
    let kept = rows.filter(outlives(label));
    assert forall|i: int| 0 <= i < without_label(rows, label).len() implies (
    #[trigger] without_label(rows, label)[i]).label != Some(label) by {
        assert(without_label(rows, label)[i] == cleared(kept[i], label));
    }
}

/// A registered label stands on exactly one row, and that row is at the
/// workspace and port it was registered for.
pub proof fn a_registered_label_stands_once(
    rows: Seq<ServiceView>,
    ws: Seq<char>,
    label: Seq<char>,
    port: u16,
    url: Seq<char>,
    now: u64,
)
    ensures
        exists|i: int| #[trigger]
            stands_only_at(with_manual(rows, ws, label, port, url, now), label, i) && at_key(
                ws,
                port,
            )(with_manual(rows, ws, label, port, url, now)[i]),
{
    let rest = without_label(rows, label);
    let after = with_manual(rows, ws, label, port, url, now);
    let p = at_key(ws, port);
    let i = first_where(rest, p) as int;
    lemma_label_cleared(rows, label);
    seqs::lemma_first_where(rest, p);
    assert forall|j: int| 0 <= j < after.len() && (#[trigger] after[j]).label == Some(
        label,
    ) implies j == i by {
        if j != i {
            assert(after[j] == rest[j]);
        }
    }
    if i < rest.len() {
        assert(p(rest[i]));
    }
    assert(stands_only_at(after, label, i) && p(after[i]));
}

/// Row `i` carries the label, and no other does.
pub open spec fn stands_only_at(rows: Seq<ServiceView>, label: Seq<char>, i: int) -> bool {
    &&& 0 <= i < rows.len()
    &&& rows[i].label == Some(label)
    &&& forall|j: int|
        0 <= j < rows.len() && (#[trigger] rows[j]).label == Some(label) ==> j == i
}

/// Registering a label keeps the labels distinct.
pub proof fn registering_keeps_labels_distinct(
    rows: Seq<ServiceView>,
    ws: Seq<char>,
    label: Seq<char>,
    port: u16,
    url: Seq<char>,
    now: u64,
)
    requires
        labels_are_distinct(rows),
    ensures
        labels_are_distinct(with_manual(rows, ws, label, port, url, now)),
{
    let rel = |a: ServiceView, b: ServiceView| a.label is None || a.label != b.label;
    let kept = rows.filter(outlives(label));
    let rest = without_label(rows, label);
    let after = with_manual(rows, ws, label, port, url, now);
    order::lemma_filter_pairwise(rows, outlives(label), rel);
    lemma_label_cleared(rows, label);
    let k = first_where(rest, at_key(ws, port)) as int;
    seqs::lemma_first_where(rest, at_key(ws, port));
    assert forall|a: int, b: int| 0 <= a < b < after.len() implies rel(
        #[trigger] after[a],
        #[trigger] after[b],
    ) by {
        if a < kept.len() {
            assert(rest[a] == cleared(kept[a], label));
        }
        if b < kept.len() {
            assert(rest[b] == cleared(kept[b], label));
            assert(rel(kept[a], kept[b]));
        }
        if a != k {
            assert(after[a] == rest[a]);
        }
        if b != k {
            assert(after[b] == rest[b]);
        }
    }
}

/// Removing a label from rows with distinct labels keeps them distinct, and none
/// carries it any more.
pub proof fn a_removed_label_is_gone(rows: Seq<ServiceView>, label: Seq<char>)
    requires
        labels_are_distinct(rows),
    ensures
        !has_label(without_manual(rows, label), label),
        labels_are_distinct(without_manual(rows, label)),
{
    let rel = |a: ServiceView, b: ServiceView| a.label is None || a.label != b.label;
    let p = carries(label);
    let after = without_manual(rows, label);
    let k = first_where(rows, p) as int;
    seqs::lemma_first_where(rows, p);
    assert forall|j: int| 0 <= j < after.len() implies (#[trigger] after[j]).label != Some(
        label,
    ) by {
        if k >= rows.len() {
            assert(!p(rows[j]));
        } else {
            let i = if rows[k].source == Source::Manual && j >= k {
                j + 1
            } else {
                j
            };
            if i != k {
                assert(after[j] == rows[i]);
                if i < k {
                    assert(!p(rows[i]));
                } else {
                    assert(rel(rows[k], rows[i]));
                }
            }
        }
    }
    assert forall|a: int, b: int| 0 <= a < b < after.len() implies rel(
        #[trigger] after[a],
        #[trigger] after[b],
    ) by {
        if k < rows.len() && rows[k].source == Source::Manual {
            let i = if a >= k {
                a + 1
            } else {
                a
            };
            let j = if b >= k {
                b + 1
            } else {
                b
            };
            assert(after[a] == rows[i] && after[b] == rows[j]);
            assert(rel(rows[i], rows[j]));
        } else {
            assert(rel(rows[a], rows[b]));
        }
    }
}

/// Removing a label keeps one row for each workspace and port.
pub proof fn removing_keeps_one_row_per_key(rows: Seq<ServiceView>, label: Seq<char>)
    requires
        one_row_per_key(rows),
    ensures
        one_row_per_key(without_manual(rows, label)),
{
    let p = carries(label);
    let after = without_manual(rows, label);
    let k = first_where(rows, p) as int;
    seqs::lemma_first_where(rows, p);
    assert forall|a: int, b: int| 0 <= a < b < after.len() implies apart()(
        #[trigger] after[a],
        #[trigger] after[b],
    ) by {
        if k < rows.len() && rows[k].source == Source::Manual {
            let i = if a >= k {
                a + 1
            } else {
                a
            };
            let j = if b >= k {
                b + 1
            } else {
                b
            };
            assert(after[a] == rows[i] && after[b] == rows[j]);
            assert(apart()(rows[i], rows[j]));
        } else {
            assert(apart()(rows[a], rows[b]));
        }
    }
}

/// A manual entry at a place where no row stood, and whose label is new, comes
/// away without a trace.
pub proof fn removing_undoes_registering(
    rows: Seq<ServiceView>,
    ws: Seq<char>,
    label: Seq<char>,
    port: u16,
    url: Seq<char>,
    now: u64,
)
    requires
        !has_label(rows, label),
        row_at(rows, ws, port) is None,
    ensures
        without_manual(with_manual(rows, ws, label, port, url, now), label) == rows,
{
    let rest = without_label(rows, label);
    let p = at_key(ws, port);
    reveal(Seq::filter);
    lemma_nothing_filtered(rows, outlives(label));
    assert(rest =~= rows);
    lemma_row_at(rows, ws, port);
    let after = with_manual(rows, ws, label, port, url, now);
    seqs::lemma_first_where(rows, p);
    assert(first_where(rows, p) == rows.len());
    assert(after == rows.push(manual_row(ws, label, port, url, now)));
    assert forall|i: int| 0 <= i < rows.len() implies !carries(label)(#[trigger] after[i]) by {
        assert(after[i] == rows[i]);
    }
    seqs::lemma_first_where_unique(after, carries(label), rows.len() as int);
    assert(after.remove(rows.len() as int) =~= rows);
}

proof fn lemma_nothing_filtered(rows: Seq<ServiceView>, p: spec_fn(ServiceView) -> bool)
    requires
        forall|i: int| 0 <= i < rows.len() ==> p(#[trigger] rows[i]),
    ensures
        rows.filter(p) == rows,
    decreases rows.len(),
{
    reveal(Seq::filter);
    if rows.len() > 0 {
        let t = rows.drop_last();
        assert forall|i: int| 0 <= i < t.len() implies p(#[trigger] t[i]) by {
            assert(t[i] == rows[i]);
        }
        lemma_nothing_filtered(t, p);
        assert(p(rows[rows.len() - 1]));
        assert(t.push(rows.last()) =~= rows);
    } else {
        assert(rows.filter(p) =~= rows);
    }
}

/// A scan keeps the labels distinct.
pub proof fn a_scan_keeps_labels_distinct(rows: Seq<ServiceView>, os: Seq<ObservedView>, now: u64)
    requires
        labels_are_distinct(rows),
    ensures
        labels_are_distinct(after_scan(rows, os, now)),
{
    let rel = |a: ServiceView, b: ServiceView| a.label is None || a.label != b.label;
    let f = |s: ServiceView| aged(s);
    let g = |s: ServiceView| faded(s);
    let start = rows.map_values(f);
    let all = merged_all(start, os, now);
    assert forall|i: int, j: int| 0 <= i < j < start.len() implies rel(
        #[trigger] start[i],
        #[trigger] start[j],
    ) by {
        assert(rel(rows[i], rows[j]));
    }
    lemma_merged_labels(start, os, now);
    order::lemma_filter_pairwise(all, stays(), rel);
    let kept = all.filter(stays());
    let last = kept.map_values(g);
    assert forall|i: int, j: int| 0 <= i < j < last.len() implies rel(
        #[trigger] last[i],
        #[trigger] last[j],
    ) by {
        assert(rel(kept[i], kept[j]));
    }
    order::lemma_sorted_pairwise(last, newest_first(), rel);
}

proof fn lemma_merged_labels(rows: Seq<ServiceView>, os: Seq<ObservedView>, now: u64)
    requires
        labels_are_distinct(rows),
    ensures
        labels_are_distinct(merged_all(rows, os, now)),
    decreases os.len(),
{
    if os.len() > 0 {
        let rel = |a: ServiceView, b: ServiceView| a.label is None || a.label != b.label;
        let before = merged_all(rows, os.drop_last(), now);
        let after = merged_all(rows, os, now);
        lemma_merged_labels(rows, os.drop_last(), now);
        assert forall|i: int, j: int| 0 <= i < j < after.len() implies rel(
            #[trigger] after[i],
            #[trigger] after[j],
        ) by {
            if j < before.len() {
                assert(rel(before[i], before[j]));
            }
        }
    }
}

// ---------------------------------------------------------------------------
// Restarts
// ---------------------------------------------------------------------------

/// The rows that were registered or labelled by hand.
pub open spec fn by_hand() -> spec_fn(ServiceView) -> bool {
    |s: ServiceView| s.source == Source::Manual || s.label is Some
}

/// What is taken over from an earlier run: what was registered by hand, the
/// first at each workspace and port.
pub open spec fn restored(rows: Seq<ServiceView>) -> Seq<ServiceView>
    decreases rows.len(),
{
    if rows.len() == 0 {
        seq![]
    } else {
        let out = restored(rows.drop_last());
        let l = rows.last();
        if by_hand()(l) && first_where(out, at_key(l.workspace_id, l.port)) == out.len() {
            out.push(l)
        } else {
            out
        }
    }
}

impl State {
    /// Takes over from an earlier run what was registered by hand: manual
    /// services, and labels with the services that they are attached to.
    pub fn restore(&mut self, earlier: &State)
        ensures
            final(self)@ == (StateView { services: restored(earlier@.services), ..old(self)@ }),
    {
        let ghost all = rows_of(earlier.services@);
        let mut out: Vec<Service> = Vec::new();
        let mut i: usize = 0;
        assert(rows_of(out@) =~= restored(all.take(0)));
        while i < earlier.services.len()
            invariant
                i <= earlier.services@.len(),
                all == rows_of(earlier.services@),
                rows_of(out@) == restored(all.take(i as int)),
            decreases earlier.services.len() - i,
        {
            let s = &earlier.services[i];
            let ghost before = rows_of(out@);
            proof {
                assert(all.take(i + 1).drop_last() =~= all.take(i as int));
                assert(all.take(i + 1).last() == s@);
                assert(before.len() == out@.len());
            }
            if (s.source == Source::Manual || s.label.is_some()) && find_key(
                &out,
                s.workspace_id.as_str(),
                s.port,
            ) == out.len() {
                out.push(s.clone());
                assert(rows_of(out@) =~= before.push(s@));
            }
            i = i + 1;
        }
        assert(all.take(i as int) =~= all);
        self.services = out;
    }
}

/// What is taken over from an earlier run has one row for each workspace and
/// port, and nothing that was not registered by hand.
pub proof fn restoring_keeps_one_row_per_key(rows: Seq<ServiceView>)
    ensures
        one_row_per_key(restored(rows)),
        forall|i: int| 0 <= i < restored(rows).len() ==> by_hand()(#[trigger] restored(rows)[i]),
    decreases rows.len(),
{
    if rows.len() > 0 {
        let out = restored(rows.drop_last());
        let l = rows.last();
        let all = restored(rows);
        restoring_keeps_one_row_per_key(rows.drop_last());
        seqs::lemma_first_where(out, at_key(l.workspace_id, l.port));
        assert forall|i: int, j: int| 0 <= i < j < all.len() implies apart()(
            #[trigger] all[i],
            #[trigger] all[j],
        ) by {
            if j < out.len() {
                assert(apart()(out[i], out[j]));
            } else {
                assert(!at_key(l.workspace_id, l.port)(out[i]));
            }
        }
    }
}

/// Manual entries survive a restart: every manual service and every labelled
/// one is taken over, as it was.
pub proof fn manual_entries_survive_a_restart(rows: Seq<ServiceView>)
    requires
        one_row_per_key(rows),
    ensures
        restored(rows) == rows.filter(by_hand()),
        forall|i: int|
            0 <= i < rows.len() && ((#[trigger] rows[i]).source == Source::Manual
                || rows[i].label is Some) ==> restored(rows).contains(rows[i]),
        forall|i: int|
            0 <= i < restored(rows).len() ==> (#[trigger] restored(rows)[i]).source
                == Source::Manual || restored(rows)[i].label is Some,
    decreases rows.len(),
{
    reveal(Seq::filter);
    restoring_keeps_one_row_per_key(rows);
    assert forall|i: int|
        0 <= i < restored(rows).len() implies (#[trigger] restored(rows)[i]).source
        == Source::Manual || restored(rows)[i].label is Some by {
        assert(by_hand()(restored(rows)[i]));
    }
    seqs::lemma_filter_members(rows, by_hand());
    assert forall|i: int|
        0 <= i < rows.len() && ((#[trigger] rows[i]).source == Source::Manual
            || rows[i].label is Some) implies rows.filter(by_hand()).contains(rows[i]) by {
        assert(by_hand()(rows[i]));
        assert(rows.contains(rows[i]));
    }
    if rows.len() > 0 {
        let front = rows.drop_last();
        let l = rows.last();
        assert(one_row_per_key(front)) by {
            assert forall|i: int, j: int| 0 <= i < j < front.len() implies apart()(
                #[trigger] front[i],
                #[trigger] front[j],
            ) by {
                assert(apart()(rows[i], rows[j]));
            }
        }
        manual_entries_survive_a_restart(front);
        let out = restored(front);
        seqs::lemma_first_where(out, at_key(l.workspace_id, l.port));
        seqs::lemma_filter_members(front, by_hand());
        let k = first_where(out, at_key(l.workspace_id, l.port)) as int;
        if k < out.len() {
            assert(front.filter(by_hand()).contains(out[k]));
            assert(front.contains(out[k]));
            let i = choose|i: int| 0 <= i < front.len() && front[i] == out[k];
            assert(apart()(rows[i], rows[rows.len() - 1]));
        }
    } else {
        assert(rows.filter(by_hand()) =~= restored(rows));
    }
}

// ---------------------------------------------------------------------------
// What a scan and a registration leave behind
// ---------------------------------------------------------------------------

/// Row `s` tells of what was observed: the same place, process, container,
/// names, directory, address and attribution, seen now.
pub open spec fn tells_of(s: ServiceView, o: ObservedView, now: u64) -> bool {
    &&& s.workspace_id == o.workspace_id
    &&& s.port == o.port
    &&& s.pid == o.pid
    &&& s.container == o.container
    &&& s.process_name == o.process_name
    &&& s.argv_summary == o.argv_summary
    &&& s.cwd == o.cwd
    &&& s.host_hint == o.host_hint
    &&& s.attribution == o.attribution
    &&& s.last_seen_ms == now
    &&& s.missed_scans == 0
}

/// Observation `j` is the last of its workspace and port.
pub open spec fn is_last_of_its_place(os: Seq<ObservedView>, j: int) -> bool {
    &&& 0 <= j < os.len()
    &&& forall|i: int|
        j < i < os.len() ==> !((#[trigger] os[i]).workspace_id == os[j].workspace_id && os[i].port
            == os[j].port)
}

proof fn lemma_last_of_its_place(os: Seq<ObservedView>, j: int)
    requires
        is_last_of_its_place(os, j),
    ensures
        ({
            let here = os.filter(observed_at(os[j].workspace_id, os[j].port));
            here.len() > 0 && here.last() == os[j]
        }),
{
    let q = observed_at(os[j].workspace_id, os[j].port);
    let front = os.take(j + 1);
    let back = os.skip(j + 1);
    assert(front + back =~= os);
    seqs::lemma_filter_add(front, back, q);
    seqs::lemma_filter_members(back, q);
    if back.filter(q).len() > 0 {
        let x = back.filter(q)[0];
        assert(back.filter(q).contains(x));
        let i = choose|i: int| 0 <= i < back.len() && back[i] == x;
        assert(os[j + 1 + i] == x);
    }
    assert(front =~= os.take(j).push(os[j]));
    seqs::lemma_filter_push(os.take(j), q, os[j]);
    assert(front.filter(q) + back.filter(q) =~= front.filter(q));
}

proof fn lemma_met_tells(row: Option<ServiceView>, os: Seq<ObservedView>, now: u64)
    requires
        os.len() > 0,
        row matches Some(r) ==> r.workspace_id == os.last().workspace_id && r.port
            == os.last().port,
        forall|i: int|
            0 <= i < os.len() ==> (#[trigger] os[i]).workspace_id == os.last().workspace_id
                && os[i].port == os.last().port,
    ensures
        met(row, os, now) matches Some(s) && tells_of(s, os.last(), now),
    decreases os.len(),
{
    let t = os.drop_last();
    if t.len() > 0 {
        assert(os[t.len() - 1].workspace_id == os.last().workspace_id);
        assert forall|i: int| 0 <= i < t.len() implies (#[trigger] t[i]).workspace_id
            == t.last().workspace_id && t[i].port == t.last().port by {
            assert(t[i] == os[i]);
        }
        lemma_met_tells(row, t, now);
    } else {
        assert(met(row, t, now) == row);
    }
}

/// After a scan the row of a workspace and port tells of the last observation
/// there, whether or not a row stood there before: one row does, and no other
/// stands there.
pub proof fn a_scan_shows_what_it_saw(
    rows: Seq<ServiceView>,
    os: Seq<ObservedView>,
    now: u64,
    j: int,
)
    requires
        one_row_per_key(rows),
        is_last_of_its_place(os, j),
    ensures
        exists|i: int|
            0 <= i < after_scan(rows, os, now).len() && tells_of(
                #[trigger] after_scan(rows, os, now)[i],
                os[j],
                now,
            ),
        forall|i: int|
            0 <= i < after_scan(rows, os, now).len() && (#[trigger] after_scan(
                rows,
                os,
                now,
            )[i]).workspace_id == os[j].workspace_id && after_scan(rows, os, now)[i].port
                == os[j].port ==> tells_of(after_scan(rows, os, now)[i], os[j], now),
{
    let ws = os[j].workspace_id;
    let port = os[j].port;
    let q = observed_at(ws, port);
    let here = os.filter(q);
    let after = after_scan(rows, os, now);
    let start = match row_at(rows, ws, port) {
        Some(r) => Some(aged(r)),
        None => None,
    };
    lemma_last_of_its_place(os, j);
    seqs::lemma_filter_members(os, q);
    assert forall|i: int| 0 <= i < here.len() implies (#[trigger] here[i]).workspace_id
        == here.last().workspace_id && here[i].port == here.last().port by {
        assert(q(here[i]));
    }
    lemma_row_at(rows, ws, port);
    lemma_met_tells(start, here, now);
    a_scan_treats_each_key_alone(rows, os, now, ws, port);
    a_scan_keeps_one_row_per_key(rows, os, now);
    lemma_row_at(after, ws, port);
    let s = row_at(after, ws, port)->0;
    assert(tells_of(s, os[j], now));
    let i = choose|i: int| 0 <= i < after.len() && after[i] == s;
    assert(tells_of(after[i], os[j], now));
    assert forall|k: int|
        0 <= k < after.len() && (#[trigger] after[k]).workspace_id == ws && after[k].port
            == port implies tells_of(after[k], os[j], now) by {
        assert(after.contains(after[k]));
        assert(at_key(ws, port)(after[k]));
    }
}

proof fn lemma_met_new(os: Seq<ObservedView>, now: u64)
    requires
        os.len() > 0,
    ensures
        met(None, os, now) matches Some(s) && {
            &&& s.label is None
            &&& s.first_seen_ms == now
            &&& s.liveness == Liveness::Unknown
            &&& s.source != Source::Manual
            &&& os.last().advertised ==> s.source == Source::Advertised && s.url == os.last().url
            &&& none_advertised(os) ==> s.source == Source::Detected && s.url == os.last().url
        },
    decreases os.len(),
{
    let t = os.drop_last();
    if none_advertised(os) {
        assert forall|i: int| 0 <= i < t.len() implies !(#[trigger] t[i]).advertised by {
            assert(t[i] == os[i]);
        }
        assert(!os[os.len() - 1].advertised);
    }
    if t.len() > 0 {
        lemma_met_new(t, now);
    } else {
        assert(met(None, t, now) is None);
    }
}

/// A place that had no row gets one for what is observed there: unlabelled, not
/// probed, first seen now, with the advertised URL where there is one and else
/// the inferred one.
pub proof fn what_is_new_is_listed(
    rows: Seq<ServiceView>,
    os: Seq<ObservedView>,
    now: u64,
    j: int,
)
    requires
        one_row_per_key(rows),
        is_last_of_its_place(os, j),
        forall|i: int|
            0 <= i < rows.len() ==> !((#[trigger] rows[i]).workspace_id == os[j].workspace_id
                && rows[i].port == os[j].port),
    ensures
        exists|i: int|
            0 <= i < after_scan(rows, os, now).len() && is_new_for(
                #[trigger] after_scan(rows, os, now)[i],
                os,
                j,
                now,
            ),
{
    let ws = os[j].workspace_id;
    let port = os[j].port;
    let q = observed_at(ws, port);
    let here = os.filter(q);
    let after = after_scan(rows, os, now);
    lemma_last_of_its_place(os, j);
    lemma_row_at(rows, ws, port);
    assert(row_at(rows, ws, port) is None) by {
        assert forall|i: int| 0 <= i < rows.len() implies !at_key(ws, port)(#[trigger] rows[i]) by {
        }
    }
    lemma_met_new(here, now);
    seqs::lemma_filter_members(os, q);
    if none_advertised(os) {
        assert forall|i: int| 0 <= i < here.len() implies !(#[trigger] here[i]).advertised by {
            assert(here.contains(here[i]));
            let k = choose|k: int| 0 <= k < os.len() && os[k] == here[i];
            assert(!os[k].advertised);
        }
    }
    assert forall|i: int| 0 <= i < here.len() implies (#[trigger] here[i]).workspace_id
        == here.last().workspace_id && here[i].port == here.last().port by {
        assert(q(here[i]));
    }
    lemma_met_tells(None, here, now);
    a_scan_treats_each_key_alone(rows, os, now, ws, port);
    lemma_row_at(after, ws, port);
    let s = row_at(after, ws, port)->0;
    let i = choose|i: int| 0 <= i < after.len() && after[i] == s;
    assert(is_new_for(after[i], os, j, now));
}

/// Row `s` is the first of what observation `j` tells.
pub open spec fn is_new_for(s: ServiceView, os: Seq<ObservedView>, j: int, now: u64) -> bool {
    &&& tells_of(s, os[j], now)
    &&& s.label is None
    &&& s.first_seen_ms == now
    &&& s.liveness == Liveness::Unknown
    &&& os[j].advertised ==> s.source == Source::Advertised && s.url == os[j].url
    &&& none_advertised(os) ==> s.source == Source::Detected && s.url == os[j].url
}

proof fn lemma_met_detected(r: ServiceView, os: Seq<ObservedView>, now: u64)
    requires
        r.source != Source::Manual,
        os.len() > 0,
    ensures
        met(Some(r), os, now) matches Some(s) && {
            &&& s.source != Source::Manual
            &&& os.last().advertised ==> s.source == Source::Advertised && s.url == os.last().url
            &&& r.source == Source::Detected && none_advertised(os) ==> s.source
                == Source::Detected && s.url == os.last().url
        },
    decreases os.len(),
{
    let t = os.drop_last();
    if none_advertised(os) {
        assert forall|i: int| 0 <= i < t.len() implies !(#[trigger] t[i]).advertised by {
            assert(t[i] == os[i]);
        }
        assert(!os[os.len() - 1].advertised);
    }
    if t.len() > 0 {
        lemma_met_detected(r, t, now);
    } else {
        assert(met(Some(r), t, now) == Some(r));
    }
}

/// A service that was not registered by hand adopts the URL that is advertised
/// for it; a detected one without such has the inferred one.
pub proof fn urls_follow_what_is_observed(
    rows: Seq<ServiceView>,
    os: Seq<ObservedView>,
    now: u64,
    j: int,
)
    requires
        one_row_per_key(rows),
        is_last_of_its_place(os, j),
        row_at(rows, os[j].workspace_id, os[j].port) matches Some(r) && r.source != Source::Manual,
    ensures
        row_at(after_scan(rows, os, now), os[j].workspace_id, os[j].port) matches Some(s) && {
            let r = row_at(rows, os[j].workspace_id, os[j].port)->0;
            &&& os[j].advertised ==> s.source == Source::Advertised && s.url == os[j].url
            &&& r.source == Source::Detected && none_advertised(os) ==> s.source
                == Source::Detected && s.url == os[j].url
        },
{
    let ws = os[j].workspace_id;
    let port = os[j].port;
    let q = observed_at(ws, port);
    let here = os.filter(q);
    let r = row_at(rows, ws, port)->0;
    lemma_last_of_its_place(os, j);
    seqs::lemma_filter_members(os, q);
    if none_advertised(os) {
        assert forall|i: int| 0 <= i < here.len() implies !(#[trigger] here[i]).advertised by {
            assert(here.contains(here[i]));
            let k = choose|k: int| 0 <= k < os.len() && os[k] == here[i];
            assert(!os[k].advertised);
        }
    }
    lemma_met_detected(aged(r), here, now);
    lemma_met_some(aged(r), here, now);
    a_scan_treats_each_key_alone(rows, os, now, ws, port);
}

/// After a scan no row stands before one that was first seen later, nor, of
/// those first seen together, before one on a lower port.
pub proof fn later_sightings_stand_first(rows: Seq<ServiceView>, os: Seq<ObservedView>, now: u64)
    ensures
        forall|i: int, j: int|
            0 <= i < j < after_scan(rows, os, now).len() ==> (#[trigger] after_scan(
                rows,
                os,
                now,
            )[i]).first_seen_ms > (#[trigger] after_scan(rows, os, now)[j]).first_seen_ms || (
            after_scan(rows, os, now)[i].first_seen_ms == after_scan(rows, os, now)[j].first_seen_ms
                && after_scan(rows, os, now)[i].port <= after_scan(rows, os, now)[j].port),
{
    let after = after_scan(rows, os, now);
    a_scan_puts_the_newest_first(rows, os, now);
    assert forall|i: int, j: int| 0 <= i < j < after.len() implies (
    #[trigger] after[i]).first_seen_ms > (#[trigger] after[j]).first_seen_ms || (
    after[i].first_seen_ms == after[j].first_seen_ms && after[i].port <= after[j].port) by {
        assert(newest_first()(after[i], after[j]));
    }
}

/// A scan lists nothing at a place where no row stood and nothing was observed.
pub proof fn a_scan_invents_nothing(
    rows: Seq<ServiceView>,
    os: Seq<ObservedView>,
    now: u64,
    ws: Seq<char>,
    port: u16,
)
    requires
        one_row_per_key(rows),
        forall|i: int|
            0 <= i < rows.len() ==> !((#[trigger] rows[i]).workspace_id == ws && rows[i].port
                == port),
        forall|i: int|
            0 <= i < os.len() ==> !((#[trigger] os[i]).workspace_id == ws && os[i].port == port),
    ensures
        forall|i: int|
            0 <= i < after_scan(rows, os, now).len() ==> !((#[trigger] after_scan(
                rows,
                os,
                now,
            )[i]).workspace_id == ws && after_scan(rows, os, now)[i].port == port),
{
    let q = observed_at(ws, port);
    let after = after_scan(rows, os, now);
    lemma_row_at(rows, ws, port);
    assert(row_at(rows, ws, port) is None) by {
        assert forall|i: int| 0 <= i < rows.len() implies !at_key(ws, port)(#[trigger] rows[i]) by {
        }
    }
    seqs::lemma_filter_members(os, q);
    if os.filter(q).len() > 0 {
        let x = os.filter(q)[0];
        assert(os.filter(q).contains(x));
        let i = choose|i: int| 0 <= i < os.len() && os[i] == x;
        assert(q(os[i]));
    }
    a_scan_treats_each_key_alone(rows, os, now, ws, port);
    lemma_row_at(after, ws, port);
    assert forall|i: int| 0 <= i < after.len() implies !((#[trigger] after[i]).workspace_id == ws
        && after[i].port == port) by {
        assert(!at_key(ws, port)(after[i]));
    }
}

proof fn lemma_registered_elsewhere(
    rows: Seq<ServiceView>,
    ws: Seq<char>,
    label: Seq<char>,
    port: u16,
    url: Seq<char>,
    now: u64,
    k: int,
)
    requires
        0 <= k < rows.len(),
        !(rows[k].label == Some(label) && rows[k].source == Source::Manual),
        !(rows[k].workspace_id == ws && rows[k].port == port),
    ensures
        with_manual(rows, ws, label, port, url, now).contains(
            if rows[k].label == Some(label) {
                ServiceView { label: None, ..rows[k] }
            } else {
                rows[k]
            },
        ),
{
    let r = rows[k];
    let want = if r.label == Some(label) {
        ServiceView { label: None, ..r }
    } else {
        r
    };
    let kept = rows.filter(outlives(label));
    let rest = without_label(rows, label);
    let after = with_manual(rows, ws, label, port, url, now);
    seqs::lemma_filter_members(rows, outlives(label));
    assert(rows.contains(r));
    assert(kept.contains(r));
    let i = choose|i: int| 0 <= i < kept.len() && kept[i] == r;
    assert(rest[i] == want);
    seqs::lemma_first_where(rest, at_key(ws, port));
    let f = first_where(rest, at_key(ws, port)) as int;
    if f == i {
        assert(at_key(ws, port)(rest[f]));
    }
    assert(after[i] == want);
}

/// Registering leaves other places alone, but for the label: a manual row that
/// carried it goes, any other row only loses it, and a row without it stays as
/// it is.
pub proof fn registering_moves_the_label(
    rows: Seq<ServiceView>,
    ws: Seq<char>,
    label: Seq<char>,
    port: u16,
    url: Seq<char>,
    now: u64,
    k: int,
)
    requires
        one_row_per_key(rows),
        0 <= k < rows.len(),
        !(rows[k].workspace_id == ws && rows[k].port == port),
    ensures
        ({
            let r = rows[k];
            let after = with_manual(rows, ws, label, port, url, now);
            &&& r.label != Some(label) ==> after.contains(r)
            &&& r.label == Some(label) && r.source != Source::Manual ==> after.contains(
                ServiceView { label: None, ..r },
            )
            &&& r.label == Some(label) && r.source == Source::Manual ==> row_at(
                after,
                r.workspace_id,
                r.port,
            ) is None
        }),
{
    let r = rows[k];
    let after = with_manual(rows, ws, label, port, url, now);
    if !(r.label == Some(label) && r.source == Source::Manual) {
        lemma_registered_elsewhere(rows, ws, label, port, url, now, k);
    } else {
        let kept = rows.filter(outlives(label));
        let rest = without_label(rows, label);
        lemma_row_at(after, r.workspace_id, r.port);
        seqs::lemma_first_where(rest, at_key(ws, port));
        if let Some(s) = row_at(after, r.workspace_id, r.port) {
            let i = choose|i: int| 0 <= i < after.len() && after[i] == s;
            assert(i < rest.len());
            assert(rest[i] == cleared(kept[i], label));
            seqs::lemma_filter_members(rows, outlives(label));
            assert(kept.contains(kept[i]));
            let h = choose|h: int| 0 <= h < rows.len() && rows[h] == kept[i];
            assert(outlives(label)(kept[i]));
            if h < k {
                assert(apart()(rows[h], rows[k]));
            } else if k < h {
                assert(apart()(rows[k], rows[h]));
            }
        }
    }
}

/// Where a service that was not registered by hand stands at a place, a label
/// registered there attaches to it and nothing else of it changes.
pub proof fn a_label_attaches_to_what_is_there(
    rows: Seq<ServiceView>,
    ws: Seq<char>,
    label: Seq<char>,
    port: u16,
    url: Seq<char>,
    now: u64,
    k: int,
)
    requires
        one_row_per_key(rows),
        0 <= k < rows.len(),
        rows[k].workspace_id == ws,
        rows[k].port == port,
        rows[k].source != Source::Manual,
    ensures
        with_manual(rows, ws, label, port, url, now).contains(
            ServiceView { label: Some(label), last_seen_ms: now, ..rows[k] },
        ),
{
    let r = rows[k];
    let kept = rows.filter(outlives(label));
    let rest = without_label(rows, label);
    let after = with_manual(rows, ws, label, port, url, now);
    seqs::lemma_filter_members(rows, outlives(label));
    assert(rows.contains(r));
    assert(kept.contains(r));
    let i = choose|i: int| 0 <= i < kept.len() && kept[i] == r;
    assert(at_key(ws, port)(rest[i]));
    order::lemma_filter_pairwise(rows, outlives(label), apart());
    seqs::lemma_first_where(rest, at_key(ws, port));
    let f = first_where(rest, at_key(ws, port)) as int;
    if f < i {
        assert(apart()(kept[f], kept[i]));
        assert(at_key(ws, port)(rest[f]));
    }
    assert(f == i);
    assert(after[i] =~= ServiceView { label: Some(label), last_seen_ms: now, ..r });
}

/// Where no row stands at a place, registering makes one: manual, with the label
/// and the URL that were given, and without a process.
pub proof fn registering_makes_a_row(
    rows: Seq<ServiceView>,
    ws: Seq<char>,
    label: Seq<char>,
    port: u16,
    url: Seq<char>,
    now: u64,
)
    requires
        one_row_per_key(rows),
        forall|i: int|
            0 <= i < rows.len() && (#[trigger] rows[i]).workspace_id == ws && rows[i].port == port
                ==> rows[i].source == Source::Manual && rows[i].label == Some(label),
    ensures
        row_at(with_manual(rows, ws, label, port, url, now), ws, port) matches Some(s) && {
            &&& s.label == Some(label)
            &&& s.url == url
            &&& s.source == Source::Manual
            &&& s.attribution == AttributionView::Manual
            &&& s.host_hint == "*"@
            &&& s.pid is None && s.container is None && s.cwd is None && s.pinned_url is None
            &&& s.process_name.len() == 0 && s.argv_summary.len() == 0
            &&& s.first_seen_ms == now && s.last_seen_ms == now
            &&& s.liveness == Liveness::Unknown && s.missed_scans == 0
        },
{
    let kept = rows.filter(outlives(label));
    let rest = without_label(rows, label);
    let after = with_manual(rows, ws, label, port, url, now);
    let p = at_key(ws, port);
    seqs::lemma_filter_members(rows, outlives(label));
    assert forall|i: int| 0 <= i < rest.len() implies !p(#[trigger] rest[i]) by {
        assert(rest[i] == cleared(kept[i], label));
        assert(kept.contains(kept[i]));
        let h = choose|h: int| 0 <= h < rows.len() && rows[h] == kept[i];
        assert(outlives(label)(kept[i]));
        assert(rows[h].port == rest[i].port);
    }
    seqs::lemma_first_where_unique(rest, p, rest.len() as int);
    assert forall|i: int| 0 <= i < rest.len() implies !p(#[trigger] after[i]) by {
        assert(after[i] == rest[i]);
    }
    seqs::lemma_first_where_unique(after, p, rest.len() as int);
}

/// Registering another label at the place of a manual row gives that row the
/// label and the URL.
pub proof fn a_manual_row_takes_a_new_url(
    rows: Seq<ServiceView>,
    ws: Seq<char>,
    label: Seq<char>,
    port: u16,
    url: Seq<char>,
    now: u64,
    k: int,
)
    requires
        one_row_per_key(rows),
        0 <= k < rows.len(),
        rows[k].workspace_id == ws,
        rows[k].port == port,
        rows[k].source == Source::Manual,
        rows[k].label != Some(label),
    ensures
        with_manual(rows, ws, label, port, url, now).contains(
            ServiceView { label: Some(label), url, pinned_url: None, last_seen_ms: now, ..rows[k] },
        ),
{
    let r = rows[k];
    let kept = rows.filter(outlives(label));
    let rest = without_label(rows, label);
    let after = with_manual(rows, ws, label, port, url, now);
    seqs::lemma_filter_members(rows, outlives(label));
    assert(rows.contains(r));
    assert(kept.contains(r));
    let i = choose|i: int| 0 <= i < kept.len() && kept[i] == r;
    assert(at_key(ws, port)(rest[i]));
    order::lemma_filter_pairwise(rows, outlives(label), apart());
    seqs::lemma_first_where(rest, at_key(ws, port));
    let f = first_where(rest, at_key(ws, port)) as int;
    if f < i {
        assert(apart()(kept[f], kept[i]));
        assert(at_key(ws, port)(rest[f]));
    }
    assert(f == i);
    assert(after[i] =~= ServiceView {
        label: Some(label),
        url,
        pinned_url: None,
        last_seen_ms: now,
        ..r
    });
}

/// Removing a label takes away the manual row that carries it, takes the label
/// off any other row, and changes no row without it.
pub proof fn removing_touches_only_its_label(rows: Seq<ServiceView>, label: Seq<char>, k: int)
    requires
        one_row_per_key(rows),
        labels_are_distinct(rows),
        0 <= k < rows.len(),
    ensures
        ({
            let r = rows[k];
            let after = without_manual(rows, label);
            &&& r.label != Some(label) ==> after.contains(r)
            &&& r.label == Some(label) && r.source != Source::Manual ==> after.contains(
                ServiceView { label: None, ..r },
            )
            &&& r.label == Some(label) && r.source == Source::Manual ==> !after.contains(r)
                && after.len() == rows.len() - 1
        }),
{
    let r = rows[k];
    let p = carries(label);
    let after = without_manual(rows, label);
    let f = first_where(rows, p) as int;
    seqs::lemma_first_where(rows, p);
    if r.label != Some(label) {
        if f >= rows.len() {
            assert(after[k] == r);
        } else {
            assert(f != k) by {
                assert(p(rows[f]));
            }
            if rows[f].source == Source::Manual && k > f {
                assert(after[k - 1] == r);
            } else {
                assert(after[k] == r);
            }
        }
    } else {
        assert(p(rows[k]));
        let rel = |a: ServiceView, b: ServiceView| a.label is None || a.label != b.label;
        if f < k {
            assert(rel(rows[f], rows[k]));
        }
        assert(f == k);
        if r.source != Source::Manual {
            assert(after[k] =~= ServiceView { label: None, ..r });
        } else if after.contains(r) {
            let i = choose|i: int| 0 <= i < after.len() && after[i] == r;
            let h = if i < k {
                i
            } else {
                i + 1
            };
            assert(rows[h] == r);
            if h < k {
                assert(apart()(rows[h], rows[k]));
            } else {
                assert(apart()(rows[k], rows[h]));
            }
        }
    }
}

/// A probe says of each service whether it is up, and of nothing else.
pub proof fn a_probe_changes_only_liveness(rows: Seq<ServiceView>, up: Seq<bool>, i: int)
    requires
        rows.len() == up.len(),
        0 <= i < rows.len(),
    ensures
        rows.map(|i: int, s: ServiceView| probed(s, up[i]))[i] == (ServiceView {
            liveness: if up[i] {
                Liveness::Up
            } else {
                Liveness::Down
            },
            ..rows[i]
        }),
{
}

pub proof fn lemma_ids(rows: Seq<ServiceView>)
    ensures
        text::ascending(ids_of(rows)),
        forall|id: Seq<char>| #[trigger] ids_of(rows).contains(id) <==> has_service(rows, id),
{
    let owners = owners_of(rows);
    text::lemma_sorted_set_exists(owners);
    assert forall|id: Seq<char>| #[trigger] ids_of(rows).contains(id) <==> has_service(
        rows,
        id,
    ) by {
        if owners.contains(id) {
            let j = choose|j: int| 0 <= j < owners.len() && owners[j] == id;
            assert(rows[j].workspace_id == id);
        }
        if has_service(rows, id) {
            let j = choose|j: int| 0 <= j < rows.len() && (#[trigger] rows[j]).workspace_id == id;
            assert(owners[j] == id);
        }
    }
}

/// The services of a workspace are those that carry its id, and no others.
pub proof fn services_go_by_workspace(rows: Seq<ServiceView>, ws: Seq<char>)
    ensures
        forall|s: ServiceView| #[trigger]
            rows.filter(of_workspace(ws)).contains(s) <==> rows.contains(s) && s.workspace_id == ws,
{
    seqs::lemma_filter_members(rows, of_workspace(ws));
}

} // verus!
