//! From a scan to the rows it shows: filtering, attributing and naming
//! listeners and container ports, and choosing one for each workspace and port.

use vstd::prelude::*;

use crate::advertise::{ranked, Advertisements, EntryView};
use crate::attribute;
use crate::attribute::{
    dir_owner, is_known, opt_attributed, owner_of, Attributed, AttributedView, Attribution, AttributionView,
    Topology, TopologyView,
};
use crate::config::{hidden, inferred_url, listed, passes, Config};
use crate::names;
use crate::names::name_of;
use crate::order;
use crate::order::sorted;
use crate::scan::docker::{containers_view, ports_view, Container, ContainerView, PublishedView};
use crate::scan::{Listener, ListenerView, Snapshot, SnapshotView};
use crate::state;
use crate::state::{
    observed_of, one_observation_per_key, row_at, unattributed_of, Observed, ObservedView, Service,
    ServiceView, Source, Unattributed, UnattributedView,
};
use crate::text;
use crate::text::{lex_le, opt_text, truncated};

verus! {

/// Longest summary of a command line, in characters.
pub const SUMMARY_MAX: usize = 120;

/// A command line cut to a summary.
pub fn summarise(command: &str) -> (r: String)
    ensures
        r@ == truncated(command@, SUMMARY_MAX as int),
        r@.len() <= SUMMARY_MAX,
{
    text::truncate(command, SUMMARY_MAX)
}

/// What a scan is judged by.
pub struct Scene {
    pub config: Config,
    pub snap: SnapshotView,
    pub topo: TopologyView,
    pub ads: Map<(Seq<char>, u16), EntryView>,
}

// ---------------------------------------------------------------------------
// Processes
// ---------------------------------------------------------------------------

/// The command line of a process, empty where it is unknown.
pub open spec fn command_in(snap: SnapshotView, pid: u32) -> Seq<char> {
    if snap.processes.contains_key(pid) {
        snap.processes[pid].command
    } else {
        seq![]
    }
}

/// The working directory of a process.
pub open spec fn cwd_in(snap: SnapshotView, pid: u32) -> Option<Seq<char>> {
    if snap.cwds.contains_key(pid) {
        Some(snap.cwds[pid])
    } else {
        None
    }
}

/// It descends from a pane's shell.
pub open spec fn is_from_pane(hit: Option<AttributedView>) -> bool {
    hit matches Some(a) && a.attribution is Pane
}

/// A URL is advertised for its workspace on this port.
pub open spec fn is_advertised(
    hit: Option<AttributedView>,
    port: u16,
    ads: Map<(Seq<char>, u16), EntryView>,
) -> bool {
    hit matches Some(a) && ads.contains_key((a.workspace_id, port))
}

/// A listener passes the filters.
pub open spec fn admitted(l: ListenerView, sc: Scene) -> bool {
    let hit = owner_of(l.pid, sc.snap, sc.topo);
    passes(
        sc.config,
        l.port,
        l.process_name,
        hidden(sc.config, command_in(sc.snap, l.pid)),
        is_from_pane(hit),
        is_advertised(hit, l.port, sc.ads),
    )
}

/// Process and port are those of a listener among these.
pub open spec fn is_seen(ls: Seq<ListenerView>, pid: u32, port: u16) -> bool {
    exists|i: int| 0 <= i < ls.len() && (#[trigger] ls[i]).pid == pid && ls[i].port == port
}

/// The listeners that pass the filters, each process and port once.
pub open spec fn accepted(ls: Seq<ListenerView>, sc: Scene) -> Seq<ListenerView>
    decreases ls.len(),
{
    if ls.len() == 0 {
        seq![]
    } else {
        let rest = accepted(ls.drop_last(), sc);
        let l = ls.last();
        if admitted(l, sc) && !is_seen(rest, l.pid, l.port) {
            rest.push(l)
        } else {
            rest
        }
    }
}

/// What is observed of a listener that `hit` owns.
pub open spec fn process_seen(l: ListenerView, hit: AttributedView, sc: Scene) -> ObservedView {
    let command = command_in(sc.snap, l.pid);
    ObservedView {
        workspace_id: hit.workspace_id,
        port: l.port,
        host_hint: l.addr,
        pid: Some(l.pid),
        container: None,
        process_name: name_of(l.process_name, command),
        argv_summary: truncated(command, SUMMARY_MAX as int),
        cwd: cwd_in(sc.snap, l.pid),
        url: inferred_url(sc.config, l.port),
        advertised: false,
        attribution: hit.attribution,
    }
}

/// A listener that nothing owns.
pub open spec fn process_stray(l: ListenerView, sc: Scene) -> UnattributedView {
    let command = command_in(sc.snap, l.pid);
    UnattributedView {
        port: l.port,
        host_hint: l.addr,
        pid: Some(l.pid),
        process_name: name_of(l.process_name, command),
        argv_summary: truncated(command, SUMMARY_MAX as int),
        cwd: cwd_in(sc.snap, l.pid),
        container: None,
    }
}

/// What is observed of these listeners.
pub open spec fn processes_seen(ls: Seq<ListenerView>, sc: Scene) -> Seq<ObservedView>
    decreases ls.len(),
{
    if ls.len() == 0 {
        seq![]
    } else {
        let out = processes_seen(ls.drop_last(), sc);
        match owner_of(ls.last().pid, sc.snap, sc.topo) {
            Some(hit) => out.push(process_seen(ls.last(), hit, sc)),
            None => out,
        }
    }
}

/// Those of these listeners that nothing owns.
pub open spec fn processes_stray(ls: Seq<ListenerView>, sc: Scene) -> Seq<UnattributedView>
    decreases ls.len(),
{
    if ls.len() == 0 {
        seq![]
    } else {
        let out = processes_stray(ls.drop_last(), sc);
        match owner_of(ls.last().pid, sc.snap, sc.topo) {
            Some(_) => out,
            None => out.push(process_stray(ls.last(), sc)),
        }
    }
}

fn seen_before(seen: &Vec<(u32, u16)>, pid: u32, port: u16) -> (r: bool)
    ensures
        r == seen@.contains((pid, port)),
{
    let mut i: usize = 0;
    while i < seen.len()
        invariant
            i <= seen@.len(),
            forall|j: int| 0 <= j < i ==> #[trigger] seen@[j] != (pid, port),
        decreases seen.len() - i,
    {
        if seen[i].0 == pid && seen[i].1 == port {
            assert(seen@[i as int] == (pid, port));
            return true;
        }
        i = i + 1;
    }
    false
}

fn from_pane(hit: &Option<Attributed>) -> (r: bool)
    ensures
        r == is_from_pane(opt_attributed(*hit)),
{
    match hit {
        Some(a) => match &a.attribution {
            Attribution::Pane { .. } => true,
            _ => false,
        },
        None => false,
    }
}

fn advertised(hit: &Option<Attributed>, port: u16, ads: &Advertisements) -> (r: bool)
    ensures
        r == is_advertised(opt_attributed(*hit), port, ads@),
{
    match hit {
        Some(a) => ads.get(a.workspace_id.as_str(), port).is_some(),
        None => false,
    }
}

/// Whether a listener passes the filters: one that descends from a pane's shell
/// may have any high port, and one with an advertised URL a low one.
pub fn admits(
    l: &Listener,
    config: &Config,
    ads: &Advertisements,
    snapshot: &Snapshot,
    topology: &Topology,
) -> (r: bool)
    ensures
        r == admitted(
            l@,
            (Scene { config: *config, snap: snapshot@, topo: topology@, ads: ads@ }),
        ),
{
    let command = match snapshot.command_of(l.pid) {
        Some(c) => c,
        None => String::new(),
    };
    assert(command@ =~= command_in(snapshot@, l.pid));
    let hit = attribute::attribute(l.pid, snapshot, topology);
    config.admits(
        l.port,
        l.process_name.as_str(),
        config.hides(command.as_str()),
        from_pane(&hit),
        advertised(&hit, l.port, ads),
    )
}

/// Filters and attributes the listeners of a scan.
fn see_processes(
    config: &Config,
    ads: &Advertisements,
    snapshot: &Snapshot,
    topology: &Topology,
    Ghost(sc): Ghost<Scene>,
) -> (r: (Vec<Observed>, Vec<Unattributed>))
    requires
        sc == (Scene { config: *config, snap: snapshot@, topo: topology@, ads: ads@ }),
    ensures
        observed_of(r.0@) == processes_seen(accepted(sc.snap.listeners, sc), sc),
        unattributed_of(r.1@) == processes_stray(accepted(sc.snap.listeners, sc), sc),
{
    let ghost all = sc.snap.listeners;
    let mut observed: Vec<Observed> = Vec::new();
    let mut stray: Vec<Unattributed> = Vec::new();
    let mut seen: Vec<(u32, u16)> = Vec::new();
    let ghost mut acc: Seq<ListenerView> = seq![];
    let mut i: usize = 0;
    proof {
        assert(observed_of(observed@) =~= seq![]);
        assert(unattributed_of(stray@) =~= seq![]);
        assert(acc =~= accepted(all.take(0), sc));
    }
    while i < snapshot.listeners.len()
        invariant
            sc == (Scene { config: *config, snap: snapshot@, topo: topology@, ads: ads@ }),
            all == sc.snap.listeners,
            i <= snapshot.listeners@.len(),
            acc == accepted(all.take(i as int), sc),
            seen@ == acc.map_values(|l: ListenerView| (l.pid, l.port)),
            observed_of(observed@) == processes_seen(acc, sc),
            unattributed_of(stray@) == processes_stray(acc, sc),
        decreases snapshot.listeners.len() - i,
    {
        let l = &snapshot.listeners[i];
        proof {
            assert(all.take(i + 1).drop_last() =~= all.take(i as int));
            assert(all.take(i + 1).last() == l@);
        }
        let command = match snapshot.command_of(l.pid) {
            Some(c) => c,
            None => String::new(),
        };
        assert(command@ =~= command_in(sc.snap, l.pid));
        let hit = attribute::attribute(l.pid, snapshot, topology);
        let pass = admits(l, config, ads, snapshot, topology);
        let repeated = seen_before(&seen, l.pid, l.port);
        proof {
            if is_seen(acc, l.pid, l.port) {
                let k = choose|k: int|
                    0 <= k < acc.len() && (#[trigger] acc[k]).pid == l.pid && acc[k].port == l.port;
                assert(seen@[k] == (l.pid, l.port));
            }
            if seen@.contains((l.pid, l.port)) {
                let k = choose|k: int| 0 <= k < seen@.len() && seen@[k] == (l.pid, l.port);
                assert(acc[k].pid == l.pid && acc[k].port == l.port);
            }
            assert(repeated == is_seen(acc, l.pid, l.port));
        }
        if pass && !repeated {
            let ghost grown = acc.push(l@);
            proof {
                assert(grown.drop_last() =~= acc);
                assert(grown.last() == l@);
            }
            seen.push((l.pid, l.port));
            assert(seen@ =~= grown.map_values(|l: ListenerView| (l.pid, l.port)));
            let name = names::display_name(l.process_name.as_str(), command.as_str());
            let summary = summarise(command.as_str());
            let cwd = snapshot.cwd_of(l.pid);
            match hit {
                Some(a) => {
                    let ghost old_view = observed_of(observed@);
                    let ghost want = process_seen(l@, a@, sc);
                    observed.push(
                        Observed {
                            workspace_id: a.workspace_id,
                            port: l.port,
                            host_hint: l.addr.clone(),
                            pid: Some(l.pid),
                            container: None,
                            process_name: name,
                            argv_summary: summary,
                            cwd,
                            url: config.url_for(l.port),
                            advertised: false,
                            attribution: a.attribution,
                        },
                    );
                    assert(observed@.last()@ =~= want);
                    assert(observed_of(observed@) =~= old_view.push(want));
                },
                None => {
                    let ghost old_view = unattributed_of(stray@);
                    let ghost want = process_stray(l@, sc);
                    stray.push(
                        Unattributed {
                            port: l.port,
                            host_hint: l.addr.clone(),
                            pid: Some(l.pid),
                            process_name: name,
                            argv_summary: summary,
                            cwd,
                            container: None,
                        },
                    );
                    assert(stray@.last()@ =~= want);
                    assert(unattributed_of(stray@) =~= old_view.push(want));
                },
            }
            proof {
                acc = grown;
            }
        }
        i = i + 1;
    }
    assert(all.take(i as int) =~= all);
    (observed, stray)
}

// ---------------------------------------------------------------------------
// Containers
// ---------------------------------------------------------------------------

/// The workspace that a container belongs to.
pub open spec fn container_owner(c: ContainerView, topo: TopologyView) -> Option<AttributedView> {
    match c.working_dir {
        Some(dir) => match dir_owner(dir, topo) {
            Some(ws) => Some(
                AttributedView { workspace_id: ws, attribution: AttributionView::Container },
            ),
            None => None,
        },
        None => None,
    }
}

/// A published port passes the filters.
pub open spec fn port_admitted(c: ContainerView, p: PublishedView, sc: Scene) -> bool {
    passes(
        sc.config,
        p.host_port,
        c.service,
        false,
        true,
        is_advertised(container_owner(c, sc.topo), p.host_port, sc.ads),
    )
}

/// What is observed of a published port that `hit` owns.
pub open spec fn port_seen(
    c: ContainerView,
    p: PublishedView,
    hit: AttributedView,
    sc: Scene,
) -> ObservedView {
    ObservedView {
        workspace_id: hit.workspace_id,
        port: p.host_port,
        host_hint: p.host_addr,
        pid: None,
        container: Some(c.name),
        process_name: c.service,
        argv_summary: truncated(c.image, SUMMARY_MAX as int),
        cwd: c.working_dir,
        url: inferred_url(sc.config, p.host_port),
        advertised: false,
        attribution: hit.attribution,
    }
}

/// A published port that nothing owns.
pub open spec fn port_stray(c: ContainerView, p: PublishedView) -> UnattributedView {
    UnattributedView {
        port: p.host_port,
        host_hint: p.host_addr,
        pid: None,
        process_name: c.service,
        argv_summary: truncated(c.image, SUMMARY_MAX as int),
        cwd: c.working_dir,
        container: Some(c.name),
    }
}

/// What is observed of these ports of a container.
pub open spec fn ports_seen(c: ContainerView, ports: Seq<PublishedView>, sc: Scene) -> Seq<
    ObservedView,
>
    decreases ports.len(),
{
    if ports.len() == 0 {
        seq![]
    } else {
        let out = ports_seen(c, ports.drop_last(), sc);
        match container_owner(c, sc.topo) {
            Some(hit) => if port_admitted(c, ports.last(), sc) {
                out.push(port_seen(c, ports.last(), hit, sc))
            } else {
                out
            },
            None => out,
        }
    }
}

/// Those of these ports that nothing owns.
pub open spec fn ports_stray(c: ContainerView, ports: Seq<PublishedView>, sc: Scene) -> Seq<
    UnattributedView,
>
    decreases ports.len(),
{
    if ports.len() == 0 {
        seq![]
    } else {
        let out = ports_stray(c, ports.drop_last(), sc);
        if container_owner(c, sc.topo) is None && port_admitted(c, ports.last(), sc) {
            out.push(port_stray(c, ports.last()))
        } else {
            out
        }
    }
}

/// What is observed of these containers.
pub open spec fn containers_seen(cs: Seq<ContainerView>, sc: Scene) -> Seq<ObservedView>
    decreases cs.len(),
{
    if cs.len() == 0 {
        seq![]
    } else {
        containers_seen(cs.drop_last(), sc) + ports_seen(cs.last(), cs.last().ports, sc)
    }
}

/// The ports of these containers that nothing owns.
pub open spec fn containers_stray(cs: Seq<ContainerView>, sc: Scene) -> Seq<UnattributedView>
    decreases cs.len(),
{
    if cs.len() == 0 {
        seq![]
    } else {
        containers_stray(cs.drop_last(), sc) + ports_stray(cs.last(), cs.last().ports, sc)
    }
}

/// Filters and attributes the published ports of one container.
fn see_container(
    config: &Config,
    ads: &Advertisements,
    topology: &Topology,
    c: &Container,
    observed: &mut Vec<Observed>,
    stray: &mut Vec<Unattributed>,
    Ghost(sc): Ghost<Scene>,
)
    requires
        sc.config == *config,
        sc.topo == topology@,
        sc.ads == ads@,
    ensures
        observed_of(final(observed)@) == observed_of(old(observed)@) + ports_seen(
            c@,
            c@.ports,
            sc,
        ),
        unattributed_of(final(stray)@) == unattributed_of(old(stray)@) + ports_stray(
            c@,
            c@.ports,
            sc,
        ),
{
    let ghost first = observed_of(observed@);
    let ghost second = unattributed_of(stray@);
    let ghost all = c@.ports;
    let hit = match &c.working_dir {
        Some(dir) => attribute::attribute_container(dir.as_str(), topology),
        None => None,
    };
    assert(opt_attributed(hit) == container_owner(c@, sc.topo));
    let mut i: usize = 0;
    proof {
        assert(first + ports_seen(c@, all.take(0), sc) =~= first);
        assert(second + ports_stray(c@, all.take(0), sc) =~= second);
    }
    while i < c.ports.len()
        invariant
            sc.config == *config,
            sc.topo == topology@,
            sc.ads == ads@,
            all == ports_view(c.ports@),
            i <= c.ports@.len(),
            opt_attributed(hit) == container_owner(c@, sc.topo),
            observed_of(observed@) == first + ports_seen(c@, all.take(i as int), sc),
            unattributed_of(stray@) == second + ports_stray(c@, all.take(i as int), sc),
        decreases c.ports.len() - i,
    {
        let p = &c.ports[i];
        proof {
            assert(all.take(i + 1).drop_last() =~= all.take(i as int));
            assert(all.take(i + 1).last() == p@);
        }
        if config.accepts_container(
            p.host_port,
            c.service.as_str(),
            advertised(&hit, p.host_port, ads),
        ) {
            match &hit {
                Some(a) => {
                    let ghost before = observed_of(observed@);
                    let ghost want = port_seen(c@, p@, a@, sc);
                    observed.push(
                        Observed {
                            workspace_id: a.workspace_id.clone(),
                            port: p.host_port,
                            host_hint: p.host_addr.clone(),
                            pid: None,
                            container: Some(c.name.clone()),
                            process_name: c.service.clone(),
                            argv_summary: summarise(c.image.as_str()),
                            cwd: text::copy_opt(&c.working_dir),
                            url: config.url_for(p.host_port),
                            advertised: false,
                            attribution: a.attribution.clone(),
                        },
                    );
                    proof {
                        assert(observed@.last()@ =~= want);
                        assert(observed_of(observed@) =~= before.push(want));
                        assert(before.push(want) =~= first + ports_seen(
                            c@,
                            all.take(i as int),
                            sc,
                        ).push(want));
                    }
                },
                None => {
                    let ghost before = unattributed_of(stray@);
                    let ghost want = port_stray(c@, p@);
                    stray.push(
                        Unattributed {
                            port: p.host_port,
                            host_hint: p.host_addr.clone(),
                            pid: None,
                            process_name: c.service.clone(),
                            argv_summary: summarise(c.image.as_str()),
                            cwd: text::copy_opt(&c.working_dir),
                            container: Some(c.name.clone()),
                        },
                    );
                    proof {
                        assert(stray@.last()@ =~= want);
                        assert(unattributed_of(stray@) =~= before.push(want));
                        assert(before.push(want) =~= second + ports_stray(
                            c@,
                            all.take(i as int),
                            sc,
                        ).push(want));
                    }
                },
            }
        }
        i = i + 1;
    }
    assert(all.take(i as int) =~= all);
}

/// Filters and attributes the published ports of the running containers.
fn see_containers(
    config: &Config,
    ads: &Advertisements,
    topology: &Topology,
    containers: &Vec<Container>,
    observed: &mut Vec<Observed>,
    stray: &mut Vec<Unattributed>,
    Ghost(sc): Ghost<Scene>,
)
    requires
        sc.config == *config,
        sc.topo == topology@,
        sc.ads == ads@,
    ensures
        observed_of(final(observed)@) == observed_of(old(observed)@) + containers_seen(
            containers_view(containers@),
            sc,
        ),
        unattributed_of(final(stray)@) == unattributed_of(old(stray)@) + containers_stray(
            containers_view(containers@),
            sc,
        ),
{
    let ghost first = observed_of(observed@);
    let ghost second = unattributed_of(stray@);
    let ghost all = containers_view(containers@);
    let mut i: usize = 0;
    proof {
        assert(first + containers_seen(all.take(0), sc) =~= first);
        assert(second + containers_stray(all.take(0), sc) =~= second);
    }
    while i < containers.len()
        invariant
            sc.config == *config,
            sc.topo == topology@,
            sc.ads == ads@,
            all == containers_view(containers@),
            i <= containers@.len(),
            observed_of(observed@) == first + containers_seen(all.take(i as int), sc),
            unattributed_of(stray@) == second + containers_stray(all.take(i as int), sc),
        decreases containers.len() - i,
    {
        let ghost done = all.take(i as int);
        let ghost c = all[i as int];
        proof {
            assert(all.take(i + 1).drop_last() =~= done);
            assert(all.take(i + 1).last() == c);
        }
        see_container(config, ads, topology, &containers[i], observed, stray, Ghost(sc));
        proof {
            assert((first + containers_seen(done, sc)) + ports_seen(c, c.ports, sc) =~= first + (
            containers_seen(done, sc) + ports_seen(c, c.ports, sc)));
            assert((second + containers_stray(done, sc)) + ports_stray(c, c.ports, sc) =~= second
                + (containers_stray(done, sc) + ports_stray(c, c.ports, sc)));
        }
        i = i + 1;
    }
    assert(all.take(i as int) =~= all);
}

// ---------------------------------------------------------------------------
// One for each place
// ---------------------------------------------------------------------------

/// Two observations of the same workspace and port.
pub open spec fn same_place(a: ObservedView, b: ObservedView) -> bool {
    a.workspace_id == b.workspace_id && a.port == b.port
}

/// Which of several at one place is shown: a process of a pane before any other
/// process, and any process before a container.
pub open spec fn preference(o: ObservedView) -> int {
    if o.attribution is Pane {
        0
    } else if o.pid is Some {
        1
    } else {
        2
    }
}

/// By workspace, port and preference.
pub open spec fn by_place() -> spec_fn(ObservedView, ObservedView) -> bool {
    |a: ObservedView, b: ObservedView|
        if a.workspace_id != b.workspace_id {
            lex_le(a.workspace_id, b.workspace_id)
        } else if a.port != b.port {
            a.port < b.port
        } else {
            preference(a) <= preference(b)
        }
}

/// `s` without an observation of the same place as the one before it.
pub open spec fn without_twins(s: Seq<ObservedView>) -> Seq<ObservedView>
    decreases s.len(),
{
    if s.len() == 0 {
        s
    } else {
        let out = without_twins(s.drop_last());
        if out.len() > 0 && same_place(out.last(), s.last()) {
            out
        } else {
            out.push(s.last())
        }
    }
}

/// By port, then by process; containers first.
pub open spec fn by_port_and_pid() -> spec_fn(UnattributedView, UnattributedView) -> bool {
    |a: UnattributedView, b: UnattributedView|
        a.port < b.port || (a.port == b.port && match (a.pid, b.pid) {
            (None, _) => true,
            (Some(x), Some(y)) => x <= y,
            (Some(_), None) => false,
        })
}

/// What stands at a place is not what stood there: another process or
/// container. A manual row without either says nothing of what stood there.
pub open spec fn is_replaced(row: Option<ServiceView>, o: ObservedView) -> bool {
    row matches Some(s) && !(s.source == Source::Manual && s.pid is None && s.container is None)
        && (s.pid != o.pid || s.container != o.container)
}

/// An observation with the URL advertised for it, unless that was advertised
/// for what stood there before.
pub open spec fn adopted(
    o: ObservedView,
    rows: Seq<ServiceView>,
    ads: Map<(Seq<char>, u16), EntryView>,
) -> ObservedView {
    if !is_replaced(row_at(rows, o.workspace_id, o.port), o) && ads.contains_key(
        (o.workspace_id, o.port),
    ) {
        ObservedView { advertised: true, url: ads[(o.workspace_id, o.port)].url, ..o }
    } else {
        o
    }
}

/// The advertisements that outlive these observations: those for what stood at
/// a place before are gone.
pub open spec fn ads_left(
    os: Seq<ObservedView>,
    rows: Seq<ServiceView>,
    ads: Map<(Seq<char>, u16), EntryView>,
) -> Map<(Seq<char>, u16), EntryView>
    decreases os.len(),
{
    if os.len() == 0 {
        ads
    } else {
        let rest = ads_left(os.drop_last(), rows, ads);
        let o = os.last();
        if is_replaced(row_at(rows, o.workspace_id, o.port), o) {
            rest.remove((o.workspace_id, o.port))
        } else {
            rest
        }
    }
}

/// Everything that a scan sees and a workspace owns.
pub open spec fn all_seen(cs: Seq<ContainerView>, sc: Scene) -> Seq<ObservedView> {
    processes_seen(accepted(sc.snap.listeners, sc), sc) + containers_seen(cs, sc)
}

/// One observation for each workspace and port.
pub open spec fn chosen(cs: Seq<ContainerView>, sc: Scene) -> Seq<ObservedView> {
    without_twins(sorted(all_seen(cs, sc), by_place()))
}

/// What a scan makes of the places of the workspaces.
pub open spec fn observations(
    cs: Seq<ContainerView>,
    rows: Seq<ServiceView>,
    sc: Scene,
) -> Seq<ObservedView> {
    chosen(cs, sc).map_values(|o: ObservedView| adopted(o, rows, sc.ads))
}

/// What a scan sees and nothing owns.
pub open spec fn strays(cs: Seq<ContainerView>, sc: Scene) -> Seq<UnattributedView> {
    sorted(
        processes_stray(accepted(sc.snap.listeners, sc), sc) + containers_stray(cs, sc),
        by_port_and_pid(),
    )
}

fn preferred(o: &Observed) -> (r: u8)
    ensures
        r == preference(o@),
{
    match &o.attribution {
        Attribution::Pane { .. } => 0,
        _ => if o.pid.is_some() {
            1
        } else {
            2
        },
    }
}

fn placed_before(a: &Observed, b: &Observed) -> (r: bool)
    ensures
        r == by_place()(a@, b@),
{
    if !text::same(a.workspace_id.as_str(), b.workspace_id.as_str()) {
        text::text_le(a.workspace_id.as_str(), b.workspace_id.as_str())
    } else if a.port != b.port {
        a.port < b.port
    } else {
        preferred(a) <= preferred(b)
    }
}

fn listed_before(a: &Unattributed, b: &Unattributed) -> (r: bool)
    ensures
        r == by_port_and_pid()(a@, b@),
{
    a.port < b.port || (a.port == b.port && match (a.pid, b.pid) {
        (None, _) => true,
        (Some(x), Some(y)) => x <= y,
        (Some(_), None) => false,
    })
}

/// Keeps the first observation of each run at one place.
fn drop_twins(v: Vec<Observed>) -> (r: Vec<Observed>)
    ensures
        observed_of(r@) == without_twins(observed_of(v@)),
{
    let ghost all = observed_of(v@);
    let mut out: Vec<Observed> = Vec::new();
    let mut i: usize = 0;
    assert(observed_of(out@) =~= all.take(0));
    while i < v.len()
        invariant
            i <= v@.len(),
            all == observed_of(v@),
            observed_of(out@) == without_twins(all.take(i as int)),
        decreases v.len() - i,
    {
        proof {
            assert(all.take(i + 1).drop_last() =~= all.take(i as int));
            assert(all.take(i + 1).last() == v@[i as int]@);
        }
        let ghost before = observed_of(out@);
        let n: usize = out.len();
        assert(before.len() == n);
        assert(n > 0 ==> before.last() == out@[n - 1]@);
        if !(n > 0 && out[n - 1].port == v[i].port && text::same(
            out[n - 1].workspace_id.as_str(),
            v[i].workspace_id.as_str(),
        )) {
            out.push(v[i].clone());
            assert(observed_of(out@) =~= before.push(v@[i as int]@));
        }
        i = i + 1;
    }
    assert(all.take(i as int) =~= all);
    out
}

fn replaced(services: &Vec<Service>, o: &Observed) -> (r: bool)
    ensures
        r == is_replaced(row_at(state::rows_of(services@), o@.workspace_id, o@.port), o@),
{
    let k = state::find_key(services, o.workspace_id.as_str(), o.port);
    if k >= services.len() {
        return false;
    }
    let s = &services[k];
    assert(state::rows_of(services@)[k as int] == s@);
    !(s.source == Source::Manual && s.pid.is_none() && s.container.is_none()) && (s.pid != o.pid
        || !text::same_opt(&s.container, &o.container))
}

/// Gives each observation the URL advertised for it, and forgets advertisements
/// for what stood at a place before.
fn adopt_urls(ads: &mut Advertisements, services: &Vec<Service>, os: &mut Vec<Observed>)
    requires
        old(ads).wf(),
    ensures
        final(ads).wf(),
        final(ads)@ == ads_left(observed_of(old(os)@), state::rows_of(services@), old(ads)@),
        forall|p: bool| #[trigger] ranked(old(ads)@, p) ==> ranked(final(ads)@, p),
        observed_of(final(os)@) == observed_of(old(os)@).map_values(
            |o: ObservedView| adopted(o, state::rows_of(services@), old(ads)@),
        ),
{
    let ghost rows = state::rows_of(services@);
    let ghost before = os@;
    let ghost all = observed_of(before);
    let ghost first = ads@;
    let mut urls: Vec<Option<String>> = Vec::new();
    let mut i: usize = 0;
    while i < os.len()
        invariant
            i <= os@.len(),
            rows == state::rows_of(services@),
            all == observed_of(os@),
            urls@.len() == i,
            forall|j: int|
                0 <= j < i ==> opt_text(#[trigger] urls@[j]) == if !is_replaced(
                    row_at(rows, all[j].workspace_id, all[j].port),
                    all[j],
                ) && ads@.contains_key((all[j].workspace_id, all[j].port)) {
                    Some(ads@[(all[j].workspace_id, all[j].port)].url)
                } else {
                    None
                },
        decreases os.len() - i,
    {
        let url = if replaced(services, &os[i]) {
            None
        } else {
            ads.get(os[i].workspace_id.as_str(), os[i].port)
        };
        assert(all[i as int] == os@[i as int]@);
        urls.push(url);
        i = i + 1;
    }
    i = 0;
    assert(all.take(0) =~= seq![]);
    while i < os.len()
        invariant
            i <= os@.len(),
            os@.len() == before.len(),
            urls@.len() == before.len(),
            rows == state::rows_of(services@),
            all == observed_of(before),
            ads.wf(),
            ads@ == ads_left(all.take(i as int), rows, first),
            forall|p: bool| #[trigger] ranked(first, p) ==> ranked(ads@, p),
            forall|j: int|
                0 <= j < urls@.len() ==> opt_text(#[trigger] urls@[j]) == if !is_replaced(
                    row_at(rows, all[j].workspace_id, all[j].port),
                    all[j],
                ) && first.contains_key((all[j].workspace_id, all[j].port)) {
                    Some(first[(all[j].workspace_id, all[j].port)].url)
                } else {
                    None
                },
            forall|j: int| i <= j < before.len() ==> #[trigger] os@[j] == before[j],
            forall|j: int|
                0 <= j < i ==> (#[trigger] os@[j])@ == if opt_text(urls@[j]) is Some {
                    ObservedView { advertised: true, url: opt_text(urls@[j])->0, ..all[j] }
                } else {
                    all[j]
                },
        decreases os.len() - i,
    {
        proof {
            assert(all.take(i + 1).drop_last() =~= all.take(i as int));
            assert(all.take(i + 1).last() == all[i as int]);
            assert(os@[i as int]@ == all[i as int]);
        }
        if replaced(services, &os[i]) {
            ads.forget(os[i].workspace_id.as_str(), os[i].port);
        }
        if let Some(url) = &urls[i] {
            os[i].advertised = true;
            os[i].url = url.clone();
            assert(os@[i as int]@ =~= ObservedView {
                advertised: true,
                url: url@,
                ..all[i as int]
            });
        }
        i = i + 1;
    }
    proof {
        assert(all.take(i as int) =~= all);
        assert(observed_of(os@) =~= all.map_values(|o: ObservedView| adopted(o, rows, first)));
    }
}

/// Filters, attributes and names what a scan saw. Of several at one workspace
/// and port one is chosen; what nothing owns is listed by port. An advertised
/// URL is adopted, or forgotten where it belonged to what stood there before.
pub fn observe(
    config: &Config,
    ads: &mut Advertisements,
    services: &Vec<Service>,
    snapshot: &Snapshot,
    topology: &Topology,
    containers: &Vec<Container>,
) -> (r: (Vec<Observed>, Vec<Unattributed>))
    requires
        old(ads).wf(),
    ensures
        final(ads).wf(),
        forall|p: bool| #[trigger] ranked(old(ads)@, p) ==> ranked(final(ads)@, p),
        ({
            let sc = Scene {
                config: *config,
                snap: snapshot@,
                topo: topology@,
                ads: old(ads)@,
            };
            let cs = containers_view(containers@);
            let rows = state::rows_of(services@);
            &&& observed_of(r.0@) == observations(cs, rows, sc)
            &&& unattributed_of(r.1@) == strays(cs, sc)
            &&& final(ads)@ == ads_left(chosen(cs, sc), rows, old(ads)@)
        }),
{
    let ghost sc = Scene { config: *config, snap: snapshot@, topo: topology@, ads: ads@ };
    let ghost cs = containers_view(containers@);
    let (mut seen, mut stray) = see_processes(config, ads, snapshot, topology, Ghost(sc));
    see_containers(config, ads, topology, containers, &mut seen, &mut stray, Ghost(sc));
    proof {
        order::lemma_sorted_map(
            seen@,
            |o: Observed| o@,
            |a: Observed, b: Observed| by_place()(a@, b@),
            by_place(),
        );
        order::lemma_sorted_map(
            stray@,
            |u: Unattributed| u@,
            |a: Unattributed, b: Unattributed| by_port_and_pid()(a@, b@),
            by_port_and_pid(),
        );
    }
    let ordered = order::sort(
        seen,
        |a: &Observed, b: &Observed| -> (c: bool)
            ensures
                c == by_place()(a@, b@)
            { placed_before(a, b) },
        Ghost(|a: Observed, b: Observed| by_place()(a@, b@)),
    );
    let listed = order::sort(
        stray,
        |a: &Unattributed, b: &Unattributed| -> (c: bool)
            ensures
                c == by_port_and_pid()(a@, b@)
            { listed_before(a, b) },
        Ghost(|a: Unattributed, b: Unattributed| by_port_and_pid()(a@, b@)),
    );
    let mut picked = drop_twins(ordered);
    adopt_urls(ads, services, &mut picked);
    (picked, listed)
}

// ---------------------------------------------------------------------------
// Laws
// ---------------------------------------------------------------------------

proof fn lemma_place_between(a: ObservedView, b: ObservedView, c: ObservedView)
    requires
        by_place()(a, b),
        by_place()(b, c),
        same_place(a, c),
    ensures
        same_place(a, b),
{
    if a.workspace_id != b.workspace_id {
        text::lemma_lex_antisymmetric(a.workspace_id, b.workspace_id);
    }
}

proof fn lemma_by_place_total()
    ensures
        order::total_order(by_place()),
{
    let le = by_place();
    assert forall|a: ObservedView, b: ObservedView| #[trigger] le(a, b) || le(b, a) by {
        text::lemma_lex_total(a.workspace_id, b.workspace_id);
    }
    assert forall|a: ObservedView, b: ObservedView, c: ObservedView| #[trigger]
        le(a, b) && #[trigger] le(b, c) implies le(a, c) by {
        if a.workspace_id != b.workspace_id && b.workspace_id != c.workspace_id {
            text::lemma_lex_transitive(a.workspace_id, b.workspace_id, c.workspace_id);
            if a.workspace_id == c.workspace_id {
                text::lemma_lex_antisymmetric(a.workspace_id, b.workspace_id);
            }
        }
    }
}

proof fn lemma_twins_members(s: Seq<ObservedView>)
    ensures
        without_twins(s).len() > 0 <==> s.len() > 0,
        s.len() > 0 ==> same_place(without_twins(s).last(), s.last()),
        forall|k: int| 0 <= k < without_twins(s).len() ==> s.contains(#[trigger] without_twins(s)[k]),
    decreases s.len(),
{
    if s.len() > 0 {
        let t = s.drop_last();
        let out = without_twins(t);
        let all = without_twins(s);
        lemma_twins_members(t);
        assert forall|k: int| 0 <= k < all.len() implies s.contains(#[trigger] all[k]) by {
            if k < out.len() {
                assert(all[k] == out[k]);
                assert(t.contains(out[k]));
                let i = choose|i: int| 0 <= i < t.len() && t[i] == out[k];
                assert(s[i] == out[k]);
            } else {
                assert(s[s.len() - 1] == all[k]);
            }
        }
    }
}

proof fn lemma_front_in_order(s: Seq<ObservedView>)
    requires
        s.len() > 0,
        order::in_order(s, by_place()),
    ensures
        order::in_order(s.drop_last(), by_place()),
        forall|x: ObservedView| #[trigger] s.drop_last().contains(x) ==> by_place()(x, s.last()),
{
    let t = s.drop_last();
    assert forall|i: int, j: int| 0 <= i < j < t.len() implies by_place()(
        #[trigger] t[i],
        #[trigger] t[j],
    ) by {
        assert(by_place()(s[i], s[j]));
    }
    assert forall|x: ObservedView| #[trigger] t.contains(x) implies by_place()(x, s.last()) by {
        let i = choose|i: int| 0 <= i < t.len() && t[i] == x;
        assert(by_place()(s[i], s[s.len() - 1]));
    }
}

proof fn lemma_twins_distinct(s: Seq<ObservedView>)
    requires
        order::in_order(s, by_place()),
    ensures
        order::in_order(without_twins(s), by_place()),
        one_observation_per_key(without_twins(s)),
    decreases s.len(),
{
    if s.len() > 0 {
        let t = s.drop_last();
        let x = s.last();
        let out = without_twins(t);
        let all = without_twins(s);
        lemma_front_in_order(s);
        lemma_twins_distinct(t);
        lemma_twins_members(t);
        if !(out.len() > 0 && same_place(out.last(), x)) {
            assert forall|i: int, j: int| 0 <= i < j < all.len() implies by_place()(
                #[trigger] all[i],
                #[trigger] all[j],
            ) by {
                if j < out.len() {
                    assert(by_place()(out[i], out[j]));
                } else {
                    assert(t.contains(out[i]));
                }
            }
            assert forall|i: int, j: int| 0 <= i < j < all.len() implies !((
            #[trigger] all[i]).workspace_id == (#[trigger] all[j]).workspace_id && all[i].port
                == all[j].port) by {
                if j < out.len() {
                    assert(all[i] == out[i] && all[j] == out[j]);
                } else if same_place(out[i], x) {
                    let n = out.len() - 1;
                    assert(t.contains(out[n]));
                    if i < n {
                        assert(by_place()(out[i], out[n]));
                        lemma_place_between(out[i], out[n], x);
                    }
                }
            }
        }
    }
}

/// Some element of `out` stands at the place of `x` and is at least as much
/// preferred.
pub open spec fn stands_for(out: Seq<ObservedView>, x: ObservedView) -> bool {
    exists|k: int|
        0 <= k < out.len() && same_place(#[trigger] out[k], x) && preference(out[k])
            <= preference(x)
}

proof fn lemma_twins_preferred(s: Seq<ObservedView>)
    requires
        order::in_order(s, by_place()),
    ensures
        forall|x: ObservedView| #[trigger] s.contains(x) ==> stands_for(without_twins(s), x),
    decreases s.len(),
{
    if s.len() > 0 {
        let t = s.drop_last();
        let l = s.last();
        let out = without_twins(t);
        let all = without_twins(s);
        lemma_front_in_order(s);
        lemma_twins_preferred(t);
        lemma_twins_members(t);
        assert forall|x: ObservedView| #[trigger] s.contains(x) implies stands_for(all, x) by {
            let i = choose|i: int| 0 <= i < s.len() && s[i] == x;
            if i < t.len() {
                assert(t[i] == x);
                assert(t.contains(x));
                let k = choose|k: int|
                    0 <= k < out.len() && same_place(#[trigger] out[k], x) && preference(out[k])
                        <= preference(x);
                assert(all[k] == out[k]);
            } else {
                let n = all.len() - 1;
                if out.len() > 0 && same_place(out.last(), l) {
                    assert(t.contains(out[out.len() - 1]));
                }
                assert(same_place(all[n], x) && preference(all[n]) <= preference(x));
            }
        }
    }
}

/// A scan gives at most one observation for each workspace and port.
pub proof fn one_observation_for_each_place(
    cs: Seq<ContainerView>,
    rows: Seq<ServiceView>,
    sc: Scene,
)
    ensures
        one_observation_per_key(observations(cs, rows, sc)),
{
    let s = sorted(all_seen(cs, sc), by_place());
    lemma_by_place_total();
    order::sorting_gives_an_order(all_seen(cs, sc), by_place());
    lemma_twins_distinct(s);
    let a = chosen(cs, sc);
    let b = observations(cs, rows, sc);
    assert forall|i: int, j: int| 0 <= i < j < b.len() implies !((#[trigger] b[i]).workspace_id == (
    #[trigger] b[j]).workspace_id && b[i].port == b[j].port) by {
        assert(!(a[i].workspace_id == a[j].workspace_id && a[i].port == a[j].port));
    }
}

/// Whatever was seen at a place, one that is at least as much preferred is
/// chosen for it: a process of a pane if there is one, and a container only if
/// there is no process. Nothing is chosen that was not seen.
pub proof fn the_preferred_is_chosen(cs: Seq<ContainerView>, sc: Scene, o: ObservedView)
    ensures
        all_seen(cs, sc).contains(o) ==> stands_for(chosen(cs, sc), o),
        chosen(cs, sc).contains(o) ==> all_seen(cs, sc).contains(o),
{
    let seen = all_seen(cs, sc);
    let s = sorted(seen, by_place());
    lemma_by_place_total();
    order::sorting_gives_an_order(seen, by_place());
    order::sorting_keeps_the_elements(seen, by_place());
    lemma_twins_members(s);
    lemma_twins_preferred(s);
    if seen.contains(o) {
        assert(s.contains(o));
    }
    if chosen(cs, sc).contains(o) {
        let k = choose|k: int| 0 <= k < chosen(cs, sc).len() && chosen(cs, sc)[k] == o;
        assert(s.contains(chosen(cs, sc)[k]));
        assert(seen.contains(o));
    }
}

proof fn lemma_ads_left(
    os: Seq<ObservedView>,
    rows: Seq<ServiceView>,
    ads: Map<(Seq<char>, u16), EntryView>,
    key: (Seq<char>, u16),
)
    ensures
        ads_left(os, rows, ads).contains_key(key) <==> ads.contains_key(key) && forall|i: int|
            0 <= i < os.len() && (#[trigger] os[i]).workspace_id == key.0 && os[i].port == key.1
                ==> !is_replaced(row_at(rows, key.0, key.1), os[i]),
        ads_left(os, rows, ads).contains_key(key) ==> ads_left(os, rows, ads)[key] == ads[key],
    decreases os.len(),
{
    if os.len() > 0 {
        let t = os.drop_last();
        lemma_ads_left(t, rows, ads, key);
        assert(os[os.len() - 1] == os.last());
        if ads_left(os, rows, ads).contains_key(key) {
            assert forall|i: int|
                0 <= i < os.len() && (#[trigger] os[i]).workspace_id == key.0 && os[i].port
                    == key.1 implies !is_replaced(row_at(rows, key.0, key.1), os[i]) by {
                if i < t.len() {
                    assert(t[i] == os[i]);
                }
            }
        }
        if ads.contains_key(key) && forall|i: int|
            0 <= i < os.len() && (#[trigger] os[i]).workspace_id == key.0 && os[i].port == key.1
                ==> !is_replaced(row_at(rows, key.0, key.1), os[i]) {
            assert forall|i: int|
                0 <= i < t.len() && (#[trigger] t[i]).workspace_id == key.0 && t[i].port
                    == key.1 implies !is_replaced(row_at(rows, key.0, key.1), t[i]) by {
                assert(t[i] == os[i]);
            }
        }
    }
}

/// A URL that was advertised for what stood at a place before is neither shown
/// nor kept; every other advertisement stays.
pub proof fn a_stale_url_never_resurfaces(
    cs: Seq<ContainerView>,
    rows: Seq<ServiceView>,
    sc: Scene,
    k: int,
    key: (Seq<char>, u16),
)
    requires
        0 <= k < chosen(cs, sc).len(),
    ensures
        ({
            let o = chosen(cs, sc)[k];
            let left = ads_left(chosen(cs, sc), rows, sc.ads);
            &&& is_replaced(row_at(rows, o.workspace_id, o.port), o) ==> observations(
                cs,
                rows,
                sc,
            )[k] == o && !left.contains_key((o.workspace_id, o.port))
            &&& sc.ads.contains_key(key) && (forall|i: int|
                0 <= i < chosen(cs, sc).len() && (#[trigger] chosen(cs, sc)[i]).workspace_id
                    == key.0 && chosen(cs, sc)[i].port == key.1 ==> !is_replaced(
                    row_at(rows, key.0, key.1),
                    chosen(cs, sc)[i],
                )) ==> left.contains_key(key) && left[key] == sc.ads[key]
        }),
{
    let o = chosen(cs, sc)[k];
    lemma_ads_left(chosen(cs, sc), rows, sc.ads, (o.workspace_id, o.port));
    lemma_ads_left(chosen(cs, sc), rows, sc.ads, key);
}

/// Everything in `os` belongs to a workspace of the session.
pub open spec fn all_known(os: Seq<ObservedView>, t: TopologyView) -> bool {
    forall|i: int| 0 <= i < os.len() ==> is_known((#[trigger] os[i]).workspace_id, t)
}

proof fn lemma_processes_known(ls: Seq<ListenerView>, sc: Scene)
    ensures
        all_known(processes_seen(ls, sc), sc.topo),
    decreases ls.len(),
{
    if ls.len() > 0 {
        lemma_processes_known(ls.drop_last(), sc);
        attribute::only_known_workspaces_own_listeners(ls.last().pid, sc.snap, sc.topo);
    }
}

proof fn lemma_ports_known(c: ContainerView, ports: Seq<PublishedView>, sc: Scene)
    ensures
        all_known(ports_seen(c, ports, sc), sc.topo),
    decreases ports.len(),
{
    if ports.len() > 0 {
        lemma_ports_known(c, ports.drop_last(), sc);
        if let Some(dir) = c.working_dir {
            attribute::only_known_workspaces_own_directories(dir, sc.topo);
        }
    }
}

proof fn lemma_containers_known(cs: Seq<ContainerView>, sc: Scene)
    ensures
        all_known(containers_seen(cs, sc), sc.topo),
    decreases cs.len(),
{
    if cs.len() > 0 {
        lemma_containers_known(cs.drop_last(), sc);
        lemma_ports_known(cs.last(), cs.last().ports, sc);
    }
}

/// Whatever a scan shows belongs to a workspace of the session.
pub proof fn nothing_outside_the_workspaces_is_shown(
    cs: Seq<ContainerView>,
    rows: Seq<ServiceView>,
    sc: Scene,
)
    ensures
        all_known(observations(cs, rows, sc), sc.topo),
{
    let seen = all_seen(cs, sc);
    let picked = chosen(cs, sc);
    let out = observations(cs, rows, sc);
    lemma_processes_known(accepted(sc.snap.listeners, sc), sc);
    lemma_containers_known(cs, sc);
    assert forall|i: int| 0 <= i < out.len() implies is_known(
        (#[trigger] out[i]).workspace_id,
        sc.topo,
    ) by {
        the_preferred_is_chosen(cs, sc, picked[i]);
        assert(picked.contains(picked[i]));
        assert(seen.contains(picked[i]));
        let k = choose|k: int| 0 <= k < seen.len() && seen[k] == picked[i];
        assert(is_known(seen[k].workspace_id, sc.topo));
        assert(out[i].workspace_id == picked[i].workspace_id);
    }
}

/// A process that descends from a pane's shell passes the filters on every port
/// from the lowest on, and an advertised one below it too, unless its name or
/// its command line is ruled out.
pub proof fn a_panes_process_may_have_any_high_port(l: ListenerView, sc: Scene)
    requires
        is_from_pane(owner_of(l.pid, sc.snap, sc.topo)),
        listed(sc.config, l.process_name),
        !hidden(sc.config, command_in(sc.snap, l.pid)),
    ensures
        l.port >= sc.config.scan.min_port ==> admitted(l, sc),
        is_advertised(owner_of(l.pid, sc.snap, sc.topo), l.port, sc.ads) ==> admitted(l, sc),
{
}

proof fn lemma_accepted_from(ls: Seq<ListenerView>, sc: Scene, j: int)
    requires
        0 <= j < accepted(ls, sc).len(),
    ensures
        ls.contains(accepted(ls, sc)[j]),
        admitted(accepted(ls, sc)[j], sc),
    decreases ls.len(),
{
    let front = ls.drop_last();
    let rest = accepted(front, sc);
    if j < rest.len() {
        lemma_accepted_from(front, sc, j);
        let i = choose|i: int| 0 <= i < front.len() && front[i] == rest[j];
        assert(ls[i] == rest[j]);
    } else {
        assert(ls[ls.len() - 1] == accepted(ls, sc)[j]);
    }
}

proof fn lemma_accepted_all(ls: Seq<ListenerView>, sc: Scene, i: int)
    requires
        0 <= i < ls.len(),
        admitted(ls[i], sc),
    ensures
        is_seen(accepted(ls, sc), ls[i].pid, ls[i].port),
    decreases ls.len(),
{
    let front = ls.drop_last();
    let rest = accepted(front, sc);
    let all = accepted(ls, sc);
    let l = ls[i];
    if i == ls.len() - 1 {
        if is_seen(rest, l.pid, l.port) {
            let k = choose|k: int|
                0 <= k < rest.len() && (#[trigger] rest[k]).pid == l.pid && rest[k].port == l.port;
            assert(all[k].pid == l.pid && all[k].port == l.port);
        } else {
            assert(all[all.len() - 1] == l);
        }
    } else {
        lemma_accepted_all(front, sc, i);
        let k = choose|k: int|
            0 <= k < rest.len() && (#[trigger] rest[k]).pid == l.pid && rest[k].port == l.port;
        assert(all[k].pid == l.pid && all[k].port == l.port);
    }
}

proof fn lemma_process_in(ls: Seq<ListenerView>, sc: Scene, i: int)
    requires
        0 <= i < ls.len(),
    ensures
        owner_of(ls[i].pid, sc.snap, sc.topo) matches Some(hit) ==> processes_seen(
            ls,
            sc,
        ).contains(process_seen(ls[i], hit, sc)),
        owner_of(ls[i].pid, sc.snap, sc.topo) is None ==> processes_stray(ls, sc).contains(
            process_stray(ls[i], sc),
        ),
    decreases ls.len(),
{
    let front = ls.drop_last();
    let seen = processes_seen(ls, sc);
    let stray = processes_stray(ls, sc);
    if i == ls.len() - 1 {
        match owner_of(ls[i].pid, sc.snap, sc.topo) {
            Some(hit) => {
                assert(seen[seen.len() - 1] == process_seen(ls[i], hit, sc));
            },
            None => {
                assert(stray[stray.len() - 1] == process_stray(ls[i], sc));
            },
        }
    } else {
        lemma_process_in(front, sc, i);
        assert(front[i] == ls[i]);
        let a = processes_seen(front, sc);
        let b = processes_stray(front, sc);
        match owner_of(ls[i].pid, sc.snap, sc.topo) {
            Some(hit) => {
                let x = process_seen(ls[i], hit, sc);
                let k = choose|k: int| 0 <= k < a.len() && a[k] == x;
                assert(seen[k] == x);
            },
            None => {
                let x = process_stray(ls[i], sc);
                let k = choose|k: int| 0 <= k < b.len() && b[k] == x;
                assert(stray[k] == x);
            },
        }
    }
}

/// `o` is what is observed of listener `i` of a scan, for the owner `hit`.
pub open spec fn is_of_listener(o: ObservedView, sc: Scene, i: int, hit: AttributedView) -> bool {
    &&& 0 <= i < sc.snap.listeners.len()
    &&& admitted(sc.snap.listeners[i], sc)
    &&& owner_of(sc.snap.listeners[i].pid, sc.snap, sc.topo) == Some(hit)
    &&& o.workspace_id == hit.workspace_id
    &&& o.attribution == hit.attribution
    &&& o.port == sc.snap.listeners[i].port
    &&& o.host_hint == sc.snap.listeners[i].addr
    &&& o.pid == Some(sc.snap.listeners[i].pid)
    &&& o.container is None
    &&& o.process_name == name_of(
        sc.snap.listeners[i].process_name,
        command_in(sc.snap, sc.snap.listeners[i].pid),
    )
    &&& o.argv_summary == truncated(command_in(sc.snap, sc.snap.listeners[i].pid), 120)
    &&& o.cwd == cwd_in(sc.snap, sc.snap.listeners[i].pid)
}

/// `o` is what is observed of port `p` of container `c`.
pub open spec fn is_of_container(
    o: ObservedView,
    cs: Seq<ContainerView>,
    sc: Scene,
    c: int,
    p: int,
) -> bool {
    &&& 0 <= c < cs.len()
    &&& 0 <= p < cs[c].ports.len()
    &&& port_admitted(cs[c], cs[c].ports[p], sc)
    &&& cs[c].working_dir is Some
    &&& dir_owner(cs[c].working_dir->0, sc.topo) == Some(o.workspace_id)
    &&& o.attribution is Container
    &&& o.port == cs[c].ports[p].host_port
    &&& o.host_hint == cs[c].ports[p].host_addr
    &&& o.pid is None
    &&& o.container == Some(cs[c].name)
    &&& o.process_name == cs[c].service
    &&& o.argv_summary == truncated(cs[c].image, 120)
    &&& o.cwd == cs[c].working_dir
}

proof fn lemma_processes_from(ls: Seq<ListenerView>, sc: Scene, k: int)
    requires
        0 <= k < processes_seen(ls, sc).len(),
    ensures
        exists|i: int|
            0 <= i < ls.len() && owner_of((#[trigger] ls[i]).pid, sc.snap, sc.topo) is Some
                && processes_seen(ls, sc)[k] == process_seen(
                ls[i],
                owner_of(ls[i].pid, sc.snap, sc.topo)->0,
                sc,
            ),
    decreases ls.len(),
{
    let front = ls.drop_last();
    let out = processes_seen(front, sc);
    if k < out.len() {
        lemma_processes_from(front, sc, k);
        let i = choose|i: int|
            0 <= i < front.len() && owner_of((#[trigger] front[i]).pid, sc.snap, sc.topo) is Some
                && out[k] == process_seen(
                front[i],
                owner_of(front[i].pid, sc.snap, sc.topo)->0,
                sc,
            );
        assert(ls[i] == front[i]);
    } else {
        assert(ls[ls.len() - 1] == ls.last());
    }
}

proof fn lemma_ports_from(c: ContainerView, ports: Seq<PublishedView>, sc: Scene, k: int)
    requires
        0 <= k < ports_seen(c, ports, sc).len(),
    ensures
        container_owner(c, sc.topo) is Some,
        exists|p: int|
            0 <= p < ports.len() && port_admitted(c, #[trigger] ports[p], sc) && ports_seen(
                c,
                ports,
                sc,
            )[k] == port_seen(c, ports[p], container_owner(c, sc.topo)->0, sc),
    decreases ports.len(),
{
    let front = ports.drop_last();
    let out = ports_seen(c, front, sc);
    if k < out.len() {
        lemma_ports_from(c, front, sc, k);
        let p = choose|p: int|
            0 <= p < front.len() && port_admitted(c, #[trigger] front[p], sc) && out[k]
                == port_seen(c, front[p], container_owner(c, sc.topo)->0, sc);
        assert(ports[p] == front[p]);
    } else {
        assert(ports[ports.len() - 1] == ports.last());
    }
}

proof fn lemma_containers_from(cs: Seq<ContainerView>, sc: Scene, k: int)
    requires
        0 <= k < containers_seen(cs, sc).len(),
    ensures
        exists|c: int, p: int| #[trigger]
            is_of_container(containers_seen(cs, sc)[k], cs, sc, c, p),
        containers_seen(cs, sc)[k].url == inferred_url(sc.config, containers_seen(cs, sc)[k].port),
        !containers_seen(cs, sc)[k].advertised,
    decreases cs.len(),
{
    let front = cs.drop_last();
    let out = containers_seen(front, sc);
    let o = containers_seen(cs, sc)[k];
    if k < out.len() {
        lemma_containers_from(front, sc, k);
        let (c, p) = choose|c: int, p: int| #[trigger] is_of_container(out[k], front, sc, c, p);
        assert(front[c] == cs[c]);
        assert(is_of_container(o, cs, sc, c, p));
    } else {
        let c = cs.len() - 1;
        let here = cs[c];
        lemma_ports_from(here, here.ports, sc, k - out.len());
        assert(o == ports_seen(here, here.ports, sc)[k - out.len()]);
        let p = choose|p: int|
            0 <= p < here.ports.len() && port_admitted(here, #[trigger] here.ports[p], sc) && o
                == port_seen(here, here.ports[p], container_owner(here, sc.topo)->0, sc);
        assert(is_of_container(o, cs, sc, c, p));
    }
}

proof fn lemma_seen_from(cs: Seq<ContainerView>, sc: Scene, o: ObservedView)
    requires
        all_seen(cs, sc).contains(o),
    ensures
        (exists|i: int, hit: AttributedView| #[trigger] is_of_listener(o, sc, i, hit)) || (exists|
            c: int,
            p: int,
        | #[trigger]
            is_of_container(o, cs, sc, c, p)),
        o.url == inferred_url(sc.config, o.port),
        !o.advertised,
{
    let ls = accepted(sc.snap.listeners, sc);
    let first = processes_seen(ls, sc);
    let second = containers_seen(cs, sc);
    let k = choose|k: int| 0 <= k < all_seen(cs, sc).len() && all_seen(cs, sc)[k] == o;
    if k < first.len() {
        assert(first[k] == o);
        lemma_processes_from(ls, sc, k);
        let j = choose|j: int|
            0 <= j < ls.len() && owner_of((#[trigger] ls[j]).pid, sc.snap, sc.topo) is Some && o
                == process_seen(ls[j], owner_of(ls[j].pid, sc.snap, sc.topo)->0, sc);
        lemma_accepted_from(sc.snap.listeners, sc, j);
        let i = choose|i: int|
            0 <= i < sc.snap.listeners.len() && sc.snap.listeners[i] == ls[j];
        let hit = owner_of(ls[j].pid, sc.snap, sc.topo)->0;
        assert(is_of_listener(o, sc, i, hit));
    } else {
        assert(second[k - first.len()] == o);
        lemma_containers_from(cs, sc, k - first.len());
    }
}

/// Every listener that passes the filters and has an owner is shown at its
/// place, by itself or by another process there: never by a container, and where
/// it is a pane's, by a pane's process.
pub proof fn every_owned_listener_is_shown(
    cs: Seq<ContainerView>,
    rows: Seq<ServiceView>,
    sc: Scene,
    i: int,
    hit: AttributedView,
)
    requires
        0 <= i < sc.snap.listeners.len(),
        admitted(sc.snap.listeners[i], sc),
        owner_of(sc.snap.listeners[i].pid, sc.snap, sc.topo) == Some(hit),
    ensures
        exists|k: int|
            0 <= k < observations(cs, rows, sc).len() && (#[trigger] observations(
                cs,
                rows,
                sc,
            )[k]).workspace_id == hit.workspace_id && observations(cs, rows, sc)[k].port
                == sc.snap.listeners[i].port && observations(cs, rows, sc)[k].pid is Some && (
            hit.attribution is Pane ==> observations(cs, rows, sc)[k].attribution is Pane),
{
    let l = sc.snap.listeners[i];
    let ls = accepted(sc.snap.listeners, sc);
    lemma_accepted_all(sc.snap.listeners, sc, i);
    let j = choose|j: int|
        0 <= j < ls.len() && (#[trigger] ls[j]).pid == l.pid && ls[j].port == l.port;
    lemma_process_in(ls, sc, j);
    let o = process_seen(ls[j], hit, sc);
    let first = processes_seen(ls, sc);
    let m = choose|m: int| 0 <= m < first.len() && first[m] == o;
    assert(all_seen(cs, sc)[m] == o);
    assert(all_seen(cs, sc).contains(o));
    the_preferred_is_chosen(cs, sc, o);
    let picked = chosen(cs, sc);
    let k = choose|k: int|
        0 <= k < picked.len() && same_place(#[trigger] picked[k], o) && preference(picked[k])
            <= preference(o);
    assert(picked.contains(picked[k]));
    the_preferred_is_chosen(cs, sc, picked[k]);
    lemma_seen_from(cs, sc, picked[k]);
    if picked[k].attribution is Pane && picked[k].pid is None {
        let (c, p) = choose|c: int, p: int| #[trigger] is_of_container(picked[k], cs, sc, c, p);
        assert(false);
    }
    assert(observations(cs, rows, sc)[k] == adopted(picked[k], rows, sc.ads));
    assert(observations(cs, rows, sc)[k].workspace_id == hit.workspace_id);
}

/// Whatever is shown tells of a listener or of a container as the scan saw it:
/// with its name, address and directory, for the workspace that owns it.
pub proof fn what_is_shown_was_seen(
    cs: Seq<ContainerView>,
    rows: Seq<ServiceView>,
    sc: Scene,
    k: int,
)
    requires
        0 <= k < observations(cs, rows, sc).len(),
    ensures
        ({
            let o = observations(cs, rows, sc)[k];
            (exists|i: int, hit: AttributedView| #[trigger] is_of_listener(o, sc, i, hit)) || (
            exists|c: int, p: int| #[trigger] is_of_container(o, cs, sc, c, p))
        }),
{
    let picked = chosen(cs, sc)[k];
    let o = observations(cs, rows, sc)[k];
    assert(chosen(cs, sc).contains(picked));
    the_preferred_is_chosen(cs, sc, picked);
    lemma_seen_from(cs, sc, picked);
    assert(o == adopted(picked, rows, sc.ads));
    if exists|i: int, hit: AttributedView| #[trigger] is_of_listener(picked, sc, i, hit) {
        let (i, hit) = choose|i: int, hit: AttributedView| #[trigger]
            is_of_listener(picked, sc, i, hit);
        assert(is_of_listener(o, sc, i, hit));
    } else {
        let (c, p) = choose|c: int, p: int| #[trigger] is_of_container(picked, cs, sc, c, p);
        assert(is_of_container(o, cs, sc, c, p));
    }
}

/// The URL that is shown is the advertised one where what stands at the place is
/// what stood there, or nothing did; else it is the inferred one.
pub proof fn the_url_shown_is_the_advertised_one(
    cs: Seq<ContainerView>,
    rows: Seq<ServiceView>,
    sc: Scene,
    k: int,
)
    requires
        0 <= k < observations(cs, rows, sc).len(),
    ensures
        ({
            let o = observations(cs, rows, sc)[k];
            let key = (o.workspace_id, o.port);
            let row = row_at(rows, o.workspace_id, o.port);
            let same = row is None || (row->0.pid == o.pid && row->0.container == o.container);
            let empty = row is Some && row->0.source == Source::Manual && row->0.pid is None
                && row->0.container is None;
            &&& sc.ads.contains_key(key) && (same || empty) ==> o.advertised && o.url
                == sc.ads[key].url
            &&& !sc.ads.contains_key(key) || !(same || empty) ==> !o.advertised && o.url
                == inferred_url(sc.config, o.port)
        }),
{
    let picked = chosen(cs, sc)[k];
    assert(chosen(cs, sc).contains(picked));
    the_preferred_is_chosen(cs, sc, picked);
    lemma_seen_from(cs, sc, picked);
    assert(observations(cs, rows, sc)[k] == adopted(picked, rows, sc.ads));
}

proof fn lemma_port_in(c: ContainerView, ports: Seq<PublishedView>, sc: Scene, p: int)
    requires
        0 <= p < ports.len(),
        port_admitted(c, ports[p], sc),
    ensures
        container_owner(c, sc.topo) matches Some(hit) ==> ports_seen(c, ports, sc).contains(
            port_seen(c, ports[p], hit, sc),
        ),
        container_owner(c, sc.topo) is None ==> ports_stray(c, ports, sc).contains(
            port_stray(c, ports[p]),
        ),
    decreases ports.len(),
{
    let front = ports.drop_last();
    let seen = ports_seen(c, ports, sc);
    let stray = ports_stray(c, ports, sc);
    if p == ports.len() - 1 {
        match container_owner(c, sc.topo) {
            Some(hit) => {
                assert(seen[seen.len() - 1] == port_seen(c, ports[p], hit, sc));
            },
            None => {
                assert(stray[stray.len() - 1] == port_stray(c, ports[p]));
            },
        }
    } else {
        lemma_port_in(c, front, sc, p);
        let a = ports_seen(c, front, sc);
        let b = ports_stray(c, front, sc);
        match container_owner(c, sc.topo) {
            Some(hit) => {
                let x = port_seen(c, ports[p], hit, sc);
                let k = choose|k: int| 0 <= k < a.len() && a[k] == x;
                assert(seen[k] == x);
            },
            None => {
                let x = port_stray(c, ports[p]);
                let k = choose|k: int| 0 <= k < b.len() && b[k] == x;
                assert(stray[k] == x);
            },
        }
    }
}

proof fn lemma_container_in(cs: Seq<ContainerView>, sc: Scene, c: int)
    requires
        0 <= c < cs.len(),
    ensures
        forall|o: ObservedView| #[trigger]
            ports_seen(cs[c], cs[c].ports, sc).contains(o) ==> containers_seen(cs, sc).contains(o),
        forall|u: UnattributedView| #[trigger]
            ports_stray(cs[c], cs[c].ports, sc).contains(u) ==> containers_stray(cs, sc).contains(
                u,
            ),
    decreases cs.len(),
{
    let front = cs.drop_last();
    let a = containers_seen(front, sc);
    let b = containers_stray(front, sc);
    let last = cs.last();
    let x = ports_seen(last, last.ports, sc);
    let y = ports_stray(last, last.ports, sc);
    if c < cs.len() - 1 {
        lemma_container_in(front, sc, c);
        assert(front[c] == cs[c]);
    }
    assert forall|o: ObservedView| #[trigger]
        ports_seen(cs[c], cs[c].ports, sc).contains(o) implies containers_seen(
        cs,
        sc,
    ).contains(o) by {
        if c < cs.len() - 1 {
            let k = choose|k: int| 0 <= k < a.len() && a[k] == o;
            assert(containers_seen(cs, sc)[k] == o);
        } else {
            let k = choose|k: int| 0 <= k < x.len() && x[k] == o;
            assert(containers_seen(cs, sc)[a.len() + k] == o);
        }
    }
    assert forall|u: UnattributedView| #[trigger]
        ports_stray(cs[c], cs[c].ports, sc).contains(u) implies containers_stray(
        cs,
        sc,
    ).contains(u) by {
        if c < cs.len() - 1 {
            let k = choose|k: int| 0 <= k < b.len() && b[k] == u;
            assert(containers_stray(cs, sc)[k] == u);
        } else {
            let k = choose|k: int| 0 <= k < y.len() && y[k] == u;
            assert(containers_stray(cs, sc)[b.len() + k] == u);
        }
    }
}

/// Every published port that passes the filters is shown: at its place where a
/// workspace owns the container's directory, and else among what nothing owns.
pub proof fn every_published_port_is_shown(
    cs: Seq<ContainerView>,
    rows: Seq<ServiceView>,
    sc: Scene,
    c: int,
    p: int,
)
    requires
        0 <= c < cs.len(),
        0 <= p < cs[c].ports.len(),
        port_admitted(cs[c], cs[c].ports[p], sc),
    ensures
        cs[c].working_dir is Some && dir_owner(cs[c].working_dir->0, sc.topo) is Some ==> exists|
            k: int,
        |
            0 <= k < observations(cs, rows, sc).len() && (#[trigger] observations(
                cs,
                rows,
                sc,
            )[k]).workspace_id == dir_owner(cs[c].working_dir->0, sc.topo)->0 && observations(
                cs,
                rows,
                sc,
            )[k].port == cs[c].ports[p].host_port,
        cs[c].working_dir is None || dir_owner(cs[c].working_dir->0, sc.topo) is None ==> exists|
            k: int,
        |
            0 <= k < strays(cs, sc).len() && (#[trigger] strays(cs, sc)[k]).container == Some(
                cs[c].name,
            ) && strays(cs, sc)[k].port == cs[c].ports[p].host_port && strays(cs, sc)[k].host_hint
                == cs[c].ports[p].host_addr && strays(cs, sc)[k].process_name == cs[c].service
                && strays(cs, sc)[k].pid is None,
{
    let here = cs[c];
    lemma_port_in(here, here.ports, sc, p);
    lemma_container_in(cs, sc, c);
    match container_owner(here, sc.topo) {
        Some(hit) => {
            let o = port_seen(here, here.ports[p], hit, sc);
            let first = processes_seen(accepted(sc.snap.listeners, sc), sc);
            let second = containers_seen(cs, sc);
            assert(second.contains(o));
            let m = choose|m: int| 0 <= m < second.len() && second[m] == o;
            assert(all_seen(cs, sc)[first.len() + m] == o);
            assert(all_seen(cs, sc).contains(o));
            the_preferred_is_chosen(cs, sc, o);
            let picked = chosen(cs, sc);
            let k = choose|k: int|
                0 <= k < picked.len() && same_place(#[trigger] picked[k], o) && preference(
                    picked[k],
                ) <= preference(o);
            assert(observations(cs, rows, sc)[k] == adopted(picked[k], rows, sc.ads));
        },
        None => {
            let u = port_stray(here, here.ports[p]);
            let first = processes_stray(accepted(sc.snap.listeners, sc), sc);
            let second = containers_stray(cs, sc);
            assert(second.contains(u));
            let m = choose|m: int| 0 <= m < second.len() && second[m] == u;
            assert((first + second)[first.len() + m] == u);
            assert((first + second).contains(u));
            order::sorting_keeps_the_elements(first + second, by_port_and_pid());
            assert(strays(cs, sc).contains(u));
            let k = choose|k: int| 0 <= k < strays(cs, sc).len() && strays(cs, sc)[k] == u;
            assert(strays(cs, sc)[k].container == Some(here.name));
        },
    }
}

/// Every listener that passes the filters and has no owner is listed as such,
/// with its process and port.
pub proof fn every_unowned_listener_is_listed(cs: Seq<ContainerView>, sc: Scene, i: int)
    requires
        0 <= i < sc.snap.listeners.len(),
        admitted(sc.snap.listeners[i], sc),
        owner_of(sc.snap.listeners[i].pid, sc.snap, sc.topo) is None,
    ensures
        exists|k: int|
            0 <= k < strays(cs, sc).len() && (#[trigger] strays(cs, sc)[k]).pid == Some(
                sc.snap.listeners[i].pid,
            ) && strays(cs, sc)[k].port == sc.snap.listeners[i].port && strays(
                cs,
                sc,
            )[k].container is None,
{
    let l = sc.snap.listeners[i];
    let ls = accepted(sc.snap.listeners, sc);
    lemma_accepted_all(sc.snap.listeners, sc, i);
    let j = choose|j: int|
        0 <= j < ls.len() && (#[trigger] ls[j]).pid == l.pid && ls[j].port == l.port;
    lemma_process_in(ls, sc, j);
    let u = process_stray(ls[j], sc);
    let first = processes_stray(ls, sc);
    let second = containers_stray(cs, sc);
    let m = choose|m: int| 0 <= m < first.len() && first[m] == u;
    assert((first + second)[m] == u);
    assert((first + second).contains(u));
    order::sorting_keeps_the_elements(first + second, by_port_and_pid());
    assert(strays(cs, sc).contains(u));
    let k = choose|k: int| 0 <= k < strays(cs, sc).len() && strays(cs, sc)[k] == u;
    assert(strays(cs, sc)[k].pid == Some(l.pid));
}

/// `u` is a listener of the scan that passes the filters and that nothing owns.
pub open spec fn is_unowned_listener(u: UnattributedView, sc: Scene, i: int) -> bool {
    &&& 0 <= i < sc.snap.listeners.len()
    &&& admitted(sc.snap.listeners[i], sc)
    &&& owner_of(sc.snap.listeners[i].pid, sc.snap, sc.topo) is None
    &&& u.pid == Some(sc.snap.listeners[i].pid)
    &&& u.port == sc.snap.listeners[i].port
    &&& u.host_hint == sc.snap.listeners[i].addr
    &&& u.process_name == name_of(
        sc.snap.listeners[i].process_name,
        command_in(sc.snap, sc.snap.listeners[i].pid),
    )
    &&& u.argv_summary == truncated(command_in(sc.snap, sc.snap.listeners[i].pid), 120)
    &&& u.cwd == cwd_in(sc.snap, sc.snap.listeners[i].pid)
    &&& u.container is None
}

/// `u` is a port of a container that passes the filters and that nothing owns.
pub open spec fn is_unowned_port(
    u: UnattributedView,
    cs: Seq<ContainerView>,
    sc: Scene,
    c: int,
    p: int,
) -> bool {
    &&& 0 <= c < cs.len()
    &&& 0 <= p < cs[c].ports.len()
    &&& port_admitted(cs[c], cs[c].ports[p], sc)
    &&& cs[c].working_dir is None || dir_owner(cs[c].working_dir->0, sc.topo) is None
    &&& u.pid is None
    &&& u.port == cs[c].ports[p].host_port
    &&& u.host_hint == cs[c].ports[p].host_addr
    &&& u.process_name == cs[c].service
    &&& u.argv_summary == truncated(cs[c].image, 120)
    &&& u.cwd == cs[c].working_dir
    &&& u.container == Some(cs[c].name)
}

proof fn lemma_processes_stray_from(ls: Seq<ListenerView>, sc: Scene, k: int)
    requires
        0 <= k < processes_stray(ls, sc).len(),
    ensures
        exists|i: int|
            0 <= i < ls.len() && owner_of((#[trigger] ls[i]).pid, sc.snap, sc.topo) is None
                && processes_stray(ls, sc)[k] == process_stray(ls[i], sc),
    decreases ls.len(),
{
    let front = ls.drop_last();
    let out = processes_stray(front, sc);
    if k < out.len() {
        lemma_processes_stray_from(front, sc, k);
        let i = choose|i: int|
            0 <= i < front.len() && owner_of((#[trigger] front[i]).pid, sc.snap, sc.topo) is None
                && out[k] == process_stray(front[i], sc);
        assert(ls[i] == front[i]);
    } else {
        assert(ls[ls.len() - 1] == ls.last());
    }
}

proof fn lemma_ports_stray_from(c: ContainerView, ports: Seq<PublishedView>, sc: Scene, k: int)
    requires
        0 <= k < ports_stray(c, ports, sc).len(),
    ensures
        container_owner(c, sc.topo) is None,
        exists|p: int|
            0 <= p < ports.len() && port_admitted(c, #[trigger] ports[p], sc) && ports_stray(
                c,
                ports,
                sc,
            )[k] == port_stray(c, ports[p]),
    decreases ports.len(),
{
    let front = ports.drop_last();
    let out = ports_stray(c, front, sc);
    if k < out.len() {
        lemma_ports_stray_from(c, front, sc, k);
        let p = choose|p: int|
            0 <= p < front.len() && port_admitted(c, #[trigger] front[p], sc) && out[k]
                == port_stray(c, front[p]);
        assert(ports[p] == front[p]);
    } else {
        assert(ports[ports.len() - 1] == ports.last());
    }
}

proof fn lemma_containers_stray_from(cs: Seq<ContainerView>, sc: Scene, k: int)
    requires
        0 <= k < containers_stray(cs, sc).len(),
    ensures
        exists|c: int, p: int| #[trigger]
            is_unowned_port(containers_stray(cs, sc)[k], cs, sc, c, p),
    decreases cs.len(),
{
    let front = cs.drop_last();
    let out = containers_stray(front, sc);
    let u = containers_stray(cs, sc)[k];
    if k < out.len() {
        lemma_containers_stray_from(front, sc, k);
        let (c, p) = choose|c: int, p: int| #[trigger] is_unowned_port(out[k], front, sc, c, p);
        assert(front[c] == cs[c]);
        assert(is_unowned_port(u, cs, sc, c, p));
    } else {
        let c = cs.len() - 1;
        let here = cs[c];
        lemma_ports_stray_from(here, here.ports, sc, k - out.len());
        assert(u == ports_stray(here, here.ports, sc)[k - out.len()]);
        let p = choose|p: int|
            0 <= p < here.ports.len() && port_admitted(here, #[trigger] here.ports[p], sc) && u
                == port_stray(here, here.ports[p]);
        assert(is_unowned_port(u, cs, sc, c, p));
    }
}

/// Whatever is listed as owned by nothing tells of such a listener or container
/// port as the scan saw it, and the list goes by port.
pub proof fn what_is_listed_as_unowned_was_seen(cs: Seq<ContainerView>, sc: Scene, k: int, j: int)
    requires
        0 <= k < strays(cs, sc).len(),
    ensures
        (exists|i: int| #[trigger] is_unowned_listener(strays(cs, sc)[k], sc, i)) || (exists|
            c: int,
            p: int,
        | #[trigger]
            is_unowned_port(strays(cs, sc)[k], cs, sc, c, p)),
        k < j < strays(cs, sc).len() ==> strays(cs, sc)[k].port <= strays(cs, sc)[j].port,
{
    let ls = accepted(sc.snap.listeners, sc);
    let first = processes_stray(ls, sc);
    let second = containers_stray(cs, sc);
    let u = strays(cs, sc)[k];
    order::sorting_keeps_the_elements(first + second, by_port_and_pid());
    assert(strays(cs, sc).contains(u));
    assert((first + second).contains(u));
    let m = choose|m: int| 0 <= m < (first + second).len() && (first + second)[m] == u;
    if m < first.len() {
        assert(first[m] == u);
        lemma_processes_stray_from(ls, sc, m);
        let a = choose|a: int|
            0 <= a < ls.len() && owner_of((#[trigger] ls[a]).pid, sc.snap, sc.topo) is None && u
                == process_stray(ls[a], sc);
        lemma_accepted_from(sc.snap.listeners, sc, a);
        let i = choose|i: int|
            0 <= i < sc.snap.listeners.len() && sc.snap.listeners[i] == ls[a];
        assert(is_unowned_listener(u, sc, i));
    } else {
        assert(second[m - first.len()] == u);
        lemma_containers_stray_from(cs, sc, m - first.len());
    }
    order::sorting_gives_an_order(first + second, by_port_and_pid());
    if k < j < strays(cs, sc).len() {
        assert(by_port_and_pid()(strays(cs, sc)[k], strays(cs, sc)[j]));
    }
}

/// A listener is filtered by its own port, name and command line: with the
/// exemptions of a pane's process where a pane's shell started it, and of an
/// advertised one where its workspace has a URL for its port.
pub proof fn a_listener_is_filtered_by_its_own(l: ListenerView, sc: Scene)
    ensures
        owner_of(l.pid, sc.snap, sc.topo) is None ==> admitted(l, sc) == passes(
            sc.config,
            l.port,
            l.process_name,
            hidden(sc.config, command_in(sc.snap, l.pid)),
            false,
            false,
        ),
        owner_of(l.pid, sc.snap, sc.topo) matches Some(hit) ==> admitted(l, sc) == passes(
            sc.config,
            l.port,
            l.process_name,
            hidden(sc.config, command_in(sc.snap, l.pid)),
            hit.attribution is Pane,
            sc.ads.contains_key((hit.workspace_id, l.port)),
        ),
{
}

/// A container's port is never too high, and its command line hides nothing: only
/// the service's name counts, and the lowest port where none is advertised.
pub proof fn a_published_port_is_never_too_high(c: ContainerView, p: PublishedView, sc: Scene)
    ensures
        p.host_port >= sc.config.scan.min_port ==> port_admitted(c, p, sc) == listed(
            sc.config,
            c.service,
        ),
        p.host_port < sc.config.scan.min_port && c.working_dir is None ==> !port_admitted(c, p, sc),
{
}

} // verus!
