//! Deciding which workspace owns a listener.
//!
//! In order, the first that applies: the process descends from a pane's shell;
//! its working directory lies under a workspace root; a workspace root stands
//! on its command line.

use vstd::prelude::*;

use crate::order;
use crate::order::sorted;
use crate::path;
use crate::path::{depth_of, lies_under, normal_form};
use crate::scan::{ancestry, climb, ProcessView, Snapshot, SnapshotView, MAX_HOPS};
use crate::seqs;
use crate::seqs::{first_where, last_where};
use crate::text;
use crate::text::{is_space, occurs_at, opt_text, texts};

verus! {

/// How a listener came to its workspace.
#[derive(Debug, PartialEq, Eq)]
pub enum Attribution {
    /// Its process descends from the shell of this pane.
    Pane { pane_id: String },
    /// Its working directory lies under a workspace root.
    Cwd,
    /// A workspace root stands on its command line.
    Command,
    /// Its compose project directory lies under a workspace root.
    Container,
    /// It was registered by hand.
    Manual,
}

/// An [`Attribution`] with its text as characters.
pub enum AttributionView {
    Pane { pane_id: Seq<char> },
    Cwd,
    Command,
    Container,
    Manual,
}

impl View for Attribution {
    type V = AttributionView;

    open spec fn view(&self) -> AttributionView {
        match self {
            Attribution::Pane { pane_id } => AttributionView::Pane { pane_id: pane_id@ },
            Attribution::Cwd => AttributionView::Cwd,
            Attribution::Command => AttributionView::Command,
            Attribution::Container => AttributionView::Container,
            Attribution::Manual => AttributionView::Manual,
        }
    }
}

impl Clone for Attribution {
    fn clone(&self) -> (r: Self)
        ensures
            r == *self,
    {
        match self {
            Attribution::Pane { pane_id } => Attribution::Pane { pane_id: pane_id.clone() },
            Attribution::Cwd => Attribution::Cwd,
            Attribution::Command => Attribution::Command,
            Attribution::Container => Attribution::Container,
            Attribution::Manual => Attribution::Manual,
        }
    }
}

/// A pane, as attribution needs it.
#[derive(Debug, PartialEq, Eq)]
pub struct PaneRef {
    pub pane_id: String,
    pub workspace_id: String,
    pub shell_pid: Option<u32>,
    pub cwds: Vec<String>,
}

/// A [`PaneRef`] with its texts as characters.
#[verifier::ext_equal]
pub struct PaneView {
    pub pane_id: Seq<char>,
    pub workspace_id: Seq<char>,
    pub shell_pid: Option<u32>,
    pub cwds: Seq<Seq<char>>,
}

impl View for PaneRef {
    type V = PaneView;

    open spec fn view(&self) -> PaneView {
        PaneView {
            pane_id: self.pane_id@,
            workspace_id: self.workspace_id@,
            shell_pid: self.shell_pid,
            cwds: texts(self.cwds@),
        }
    }
}

/// A workspace, as attribution and display need it.
#[derive(Debug, PartialEq, Eq)]
pub struct WorkspaceRef {
    pub workspace_id: String,
    pub label: String,
    pub checkout_path: Option<String>,
}

/// A [`WorkspaceRef`] with its texts as characters.
#[verifier::ext_equal]
pub struct WorkspaceView {
    pub workspace_id: Seq<char>,
    pub label: Seq<char>,
    pub checkout_path: Option<Seq<char>>,
}

impl View for WorkspaceRef {
    type V = WorkspaceView;

    open spec fn view(&self) -> WorkspaceView {
        WorkspaceView {
            workspace_id: self.workspace_id@,
            label: self.label@,
            checkout_path: opt_text(self.checkout_path),
        }
    }
}

/// The workspaces and panes of a session.
#[derive(Debug)]
pub struct Topology {
    pub workspaces: Vec<WorkspaceRef>,
    pub panes: Vec<PaneRef>,
    /// Directories too broad to own anything (the home directory, `/`).
    pub excluded_roots: Vec<String>,
}

/// A [`Topology`] with its texts as characters.
#[verifier::ext_equal]
pub struct TopologyView {
    pub workspaces: Seq<WorkspaceView>,
    pub panes: Seq<PaneView>,
    pub excluded_roots: Seq<Seq<char>>,
}

impl View for Topology {
    type V = TopologyView;

    open spec fn view(&self) -> TopologyView {
        TopologyView {
            workspaces: self.workspaces@.map_values(|w: WorkspaceRef| w@),
            panes: self.panes@.map_values(|p: PaneRef| p@),
            excluded_roots: texts(self.excluded_roots@),
        }
    }
}

/// The owner of a listener.
#[derive(Debug, PartialEq, Eq)]
pub struct Attributed {
    pub workspace_id: String,
    pub attribution: Attribution,
}

/// An [`Attributed`] with its texts as characters.
#[verifier::ext_equal]
pub struct AttributedView {
    pub workspace_id: Seq<char>,
    pub attribution: AttributionView,
}

impl View for Attributed {
    type V = AttributedView;

    open spec fn view(&self) -> AttributedView {
        AttributedView { workspace_id: self.workspace_id@, attribution: self.attribution@ }
    }
}

/// An optional [`Attributed`] with its texts as characters.
pub open spec fn opt_attributed(o: Option<Attributed>) -> Option<AttributedView> {
    match o {
        Some(a) => Some(a@),
        None => None,
    }
}

// ---------------------------------------------------------------------------
// Workspace roots
// ---------------------------------------------------------------------------

/// The checkout paths of the workspaces that have one, with their owners.
pub open spec fn checkouts(ws: Seq<WorkspaceView>) -> Seq<(Seq<char>, Seq<char>)>
    decreases ws.len(),
{
    if ws.len() == 0 {
        seq![]
    } else {
        match ws.last().checkout_path {
            Some(p) => checkouts(ws.drop_last()).push((p, ws.last().workspace_id)),
            None => checkouts(ws.drop_last()),
        }
    }
}

/// The working directories of one pane, with its owner.
pub open spec fn pane_dirs(pane: PaneView) -> Seq<(Seq<char>, Seq<char>)> {
    pane.cwds.map_values(|c: Seq<char>| (c, pane.workspace_id))
}

/// The working directories of the panes, with their owners.
pub open spec fn all_pane_dirs(panes: Seq<PaneView>) -> Seq<(Seq<char>, Seq<char>)>
    decreases panes.len(),
{
    if panes.len() == 0 {
        seq![]
    } else {
        all_pane_dirs(panes.drop_last()) + pane_dirs(panes.last())
    }
}

/// Every directory that could be a root, with its owner; checkout paths first.
pub open spec fn candidates(t: TopologyView) -> Seq<(Seq<char>, Seq<char>)> {
    checkouts(t.workspaces) + all_pane_dirs(t.panes)
}

/// `path` is one of the directories that own nothing.
pub open spec fn is_excluded(path: Seq<char>, excluded: Seq<Seq<char>>) -> bool {
    exists|i: int| 0 <= i < excluded.len() && normal_form(#[trigger] excluded[i]) == path
}

/// `path` has an owner in `roots`.
pub open spec fn is_owned(path: Seq<char>, roots: Seq<(Seq<char>, Seq<char>)>) -> bool {
    exists|i: int| 0 <= i < roots.len() && (#[trigger] roots[i]).0 == path
}

/// The candidates in normal form without those excluded; the first owner of a
/// directory keeps it.
pub open spec fn owned_roots(cands: Seq<(Seq<char>, Seq<char>)>, excluded: Seq<Seq<char>>) -> Seq<
    (Seq<char>, Seq<char>),
>
    decreases cands.len(),
{
    if cands.len() == 0 {
        seq![]
    } else {
        let rest = owned_roots(cands.drop_last(), excluded);
        let path = normal_form(cands.last().0);
        if is_excluded(path, excluded) || is_owned(path, rest) {
            rest
        } else {
            rest.push((path, cands.last().1))
        }
    }
}

/// Deeper directories first.
pub open spec fn deeper_first() -> spec_fn((Seq<char>, Seq<char>), (Seq<char>, Seq<char>)) -> bool {
    |a: (Seq<char>, Seq<char>), b: (Seq<char>, Seq<char>)| depth_of(a.0) >= depth_of(b.0)
}

/// The roots of a topology with their owners, deepest first.
pub open spec fn roots_of(t: TopologyView) -> Seq<(Seq<char>, Seq<char>)> {
    sorted(owned_roots(candidates(t), t.excluded_roots), deeper_first())
}

/// The pairs of a vector, as characters.
pub open spec fn roots_view(v: Seq<(String, String)>) -> Seq<(Seq<char>, Seq<char>)> {
    v.map_values(|p: (String, String)| (p.0@, p.1@))
}

/// Adds a candidate to the roots found so far.
fn consider(
    roots: &mut Vec<(String, String)>,
    excluded: &Vec<String>,
    dir: &str,
    owner: &str,
    Ghost(cands): Ghost<Seq<(Seq<char>, Seq<char>)>>,
)
    requires
        roots_view(old(roots)@) == owned_roots(cands, texts(excluded@)),
    ensures
        roots_view(final(roots)@) == owned_roots(cands.push((dir@, owner@)), texts(excluded@)),
{
    let p = path::normalise(dir);
    let ghost grown = cands.push((dir@, owner@));
    let ghost before = roots_view(roots@);
    proof {
        assert(grown.drop_last() =~= cands);
        assert(grown.last() == (dir@, owner@));
    }
    let mut i: usize = 0;
    while i < excluded.len()
        invariant
            i <= excluded@.len(),
            p@ == normal_form(dir@),
            roots_view(roots@) == owned_roots(cands, texts(excluded@)),
            grown.drop_last() == cands,
            grown.last() == (dir@, owner@),
            grown.len() > 0,
            grown == cands.push((dir@, owner@)),
            forall|j: int| 0 <= j < i ==> normal_form(#[trigger] texts(excluded@)[j]) != p@,
        decreases excluded.len() - i,
    {
        let x = path::normalise(excluded[i].as_str());
        if text::same(x.as_str(), p.as_str()) {
            assert(normal_form(texts(excluded@)[i as int]) == p@);
            return ;
        }
        assert(texts(excluded@)[i as int] == excluded@[i as int]@);
        i = i + 1;
    }
    let k = seqs::find_where(
        roots,
        |r: &(String, String)| -> (b: bool)
            ensures
                b == (r.0@ == p@)
            { text::same(r.0.as_str(), p.as_str()) },
        Ghost(|r: (String, String)| r.0@ == p@),
    );
    proof {
        seqs::lemma_first_where(roots@, |r: (String, String)| r.0@ == p@);
    }
    if k < roots.len() {
        assert(before[k as int].0 == p@);
        return ;
    }
    proof {
        assert forall|j: int| 0 <= j < before.len() implies (#[trigger] before[j]).0 != p@ by {
            assert(roots@[j].0@ != p@);
        }
        assert(!is_excluded(p@, texts(excluded@)));
        assert(!is_owned(p@, before));
    }
    roots.push((p, owner.to_owned()));
    assert(roots_view(roots@) =~= before.push((normal_form(dir@), owner@)));
}

impl Topology {
    /// The topology of these workspaces and panes; the root directory and the
    /// home directory own nothing.
    pub fn new(workspaces: Vec<WorkspaceRef>, panes: Vec<PaneRef>, home: Option<String>) -> (r:
        Self)
        ensures
            r.workspaces == workspaces,
            r.panes == panes,
            r@.excluded_roots == match home {
                Some(h) => seq!["/"@, h@],
                None => seq!["/"@],
            },
    {
        let mut excluded_roots: Vec<String> = Vec::new();
        excluded_roots.push("/".to_owned());
        if let Some(h) = home {
            excluded_roots.push(h);
        }
        let r = Topology { workspaces, panes, excluded_roots };
        assert(r@.excluded_roots =~= match home {
            Some(h) => seq!["/"@, h@],
            None => seq!["/"@],
        });
        r
    }

    /// The label of the first workspace with this id.
    pub fn label_of(&self, workspace_id: &str) -> (r: Option<String>)
        ensures
            opt_text(r) == label_in(self@.workspaces, workspace_id@),
    {
        let ghost p = |w: WorkspaceView| w.workspace_id == workspace_id@;
        let k = seqs::find_where(
            &self.workspaces,
            |w: &WorkspaceRef| -> (b: bool)
                ensures
                    b == p(w@)
                { text::same(w.workspace_id.as_str(), workspace_id) },
            Ghost(|w: WorkspaceRef| p(w@)),
        );
        proof {
            seqs::lemma_first_where_map(
                self.workspaces@,
                |w: WorkspaceRef| w@,
                |w: WorkspaceRef| p(w@),
                p,
            );
        }
        if k < self.workspaces.len() {
            Some(self.workspaces[k].label.clone())
        } else {
            None
        }
    }

    /// Directories with the workspace that owns them, deepest first. Of
    /// several owners the first has it, and checkout paths come before the
    /// working directories of panes.
    pub fn roots(&self) -> (r: Vec<(String, String)>)
        ensures
            roots_view(r@) == roots_of(self@),
    {
        let ghost t = self@;
        let ghost ex = t.excluded_roots;
        let mut out: Vec<(String, String)> = Vec::new();
        let mut i: usize = 0;
        assert(roots_view(out@) =~= owned_roots(checkouts(t.workspaces.take(0)), ex));
        while i < self.workspaces.len()
            invariant
                i <= self.workspaces@.len(),
                t == self@,
                ex == t.excluded_roots,
                roots_view(out@) == owned_roots(checkouts(t.workspaces.take(i as int)), ex),
            decreases self.workspaces.len() - i,
        {
            let w = &self.workspaces[i];
            let ghost done = checkouts(t.workspaces.take(i as int));
            proof {
                assert(t.workspaces.take(i + 1).drop_last() =~= t.workspaces.take(i as int));
                assert(t.workspaces.take(i + 1).last() == w@);
            }
            if let Some(p) = &w.checkout_path {
                consider(
                    &mut out,
                    &self.excluded_roots,
                    p.as_str(),
                    w.workspace_id.as_str(),
                    Ghost(done),
                );
            }
            i = i + 1;
        }
        let ghost heads = checkouts(t.workspaces);
        proof {
            assert(t.workspaces.take(i as int) =~= t.workspaces);
            assert(heads + all_pane_dirs(t.panes.take(0)) =~= heads);
        }
        i = 0;
        while i < self.panes.len()
            invariant
                i <= self.panes@.len(),
                t == self@,
                ex == t.excluded_roots,
                roots_view(out@) == owned_roots(
                    heads + all_pane_dirs(t.panes.take(i as int)),
                    ex,
                ),
            decreases self.panes.len() - i,
        {
            let pane = &self.panes[i];
            let ghost done = heads + all_pane_dirs(t.panes.take(i as int));
            let ghost dirs = pane_dirs(pane@);
            proof {
                assert(t.panes.take(i + 1).drop_last() =~= t.panes.take(i as int));
                assert(t.panes.take(i + 1).last() == pane@);
                assert(done + dirs.take(0) =~= done);
            }
            let mut j: usize = 0;
            while j < pane.cwds.len()
                invariant
                    j <= pane.cwds@.len(),
                    dirs == pane_dirs(pane@),
                    ex == texts(self.excluded_roots@),
                    roots_view(out@) == owned_roots(done + dirs.take(j as int), ex),
                decreases pane.cwds.len() - j,
            {
                consider(
                    &mut out,
                    &self.excluded_roots,
                    pane.cwds[j].as_str(),
                    pane.workspace_id.as_str(),
                    Ghost(done + dirs.take(j as int)),
                );
                assert((done + dirs.take(j as int)).push(dirs[j as int]) =~= done + dirs.take(
                    j + 1,
                ));
                j = j + 1;
            }
            proof {
                assert(dirs.take(j as int) =~= dirs);
                assert(done + dirs =~= heads + (all_pane_dirs(t.panes.take(i as int)) + dirs));
            }
            i = i + 1;
        }
        proof {
            assert(t.panes.take(i as int) =~= t.panes);
            order::lemma_sorted_map(
                out@,
                |p: (String, String)| (p.0@, p.1@),
                |a: (String, String), b: (String, String)| depth_of(a.0@) >= depth_of(b.0@),
                deeper_first(),
            );
        }
        order::sort(
            out,
            |a: &(String, String), b: &(String, String)| -> (c: bool)
                ensures
                    c == (depth_of(a.0@) >= depth_of(b.0@))
                { path::depth(a.0.as_str()) >= path::depth(b.0.as_str()) },
            Ghost(|a: (String, String), b: (String, String)| depth_of(a.0@) >= depth_of(b.0@)),
        )
    }

    /// The pane whose shell is `pid`; of several the last.
    fn shell_pane(&self, pid: u32) -> (r: Option<usize>)
        ensures
            r is Some <==> shell_at(self@.panes, pid) >= 0,
            r matches Some(k) ==> k == shell_at(self@.panes, pid) && k < self.panes@.len(),
    {
        let ghost p = is_shell(pid);
        let ghost panes = self@.panes;
        let mut i: usize = self.panes.len();
        while i > 0
            invariant
                i <= self.panes@.len(),
                panes == self@.panes,
                p == is_shell(pid),
                forall|j: int| i <= j < panes.len() ==> !p(#[trigger] panes[j]),
            decreases i,
        {
            if self.panes[i - 1].shell_pid == Some(pid) {
                proof {
                    assert(p(panes[i - 1]));
                    seqs::lemma_last_where_unique(panes, p, i - 1);
                }
                return Some(i - 1);
            }
            i = i - 1;
        }
        proof {
            seqs::lemma_last_where_unique(panes, p, -1);
        }
        None
    }
}

/// The label of the first workspace with this id.
pub open spec fn label_in(ws: Seq<WorkspaceView>, id: Seq<char>) -> Option<Seq<char>> {
    let k = first_where(ws, |w: WorkspaceView| w.workspace_id == id) as int;
    if k < ws.len() {
        Some(ws[k].label)
    } else {
        None
    }
}

// ---------------------------------------------------------------------------
// Attribution
// ---------------------------------------------------------------------------

/// The panes whose shell is `pid`.
pub open spec fn is_shell(pid: u32) -> spec_fn(PaneView) -> bool {
    |p: PaneView| p.shell_pid == Some(pid)
}

/// The last pane whose shell is `pid`, or -1.
pub open spec fn shell_at(panes: Seq<PaneView>, pid: u32) -> int {
    last_where(panes, is_shell(pid))
}

/// Where a pane's process goes.
pub open spec fn pane_hit(pane: PaneView) -> AttributedView {
    AttributedView {
        workspace_id: pane.workspace_id,
        attribution: AttributionView::Pane { pane_id: pane.pane_id },
    }
}

/// `pid` and its ancestors, nearest first.
pub open spec fn lineage(snap: SnapshotView, pid: u32) -> Seq<u32> {
    seq![pid] + ancestry(snap.processes, pid, MAX_HOPS as nat)
}

/// The pane of the nearest shell in a lineage.
pub open spec fn shell_in(line: Seq<u32>, panes: Seq<PaneView>) -> Option<AttributedView> {
    let k = first_where(line, |p: u32| shell_at(panes, p) >= 0) as int;
    if k < line.len() {
        Some(pane_hit(panes[shell_at(panes, line[k])]))
    } else {
        None
    }
}

/// The owner of the first of `roots` that satisfies `p`.
pub open spec fn first_owner(
    roots: Seq<(Seq<char>, Seq<char>)>,
    p: spec_fn(Seq<char>) -> bool,
) -> Option<Seq<char>> {
    let k = first_where(roots, |r: (Seq<char>, Seq<char>)| p(r.0)) as int;
    if k < roots.len() {
        Some(roots[k].1)
    } else {
        None
    }
}

/// The roots that `dir` lies under.
pub open spec fn holds_dir(dir: Seq<char>) -> spec_fn(Seq<char>) -> bool {
    |root: Seq<char>| lies_under(normal_form(dir), root)
}

/// The roots that stand on a command line.
pub open spec fn on_line(command: Seq<char>) -> spec_fn(Seq<char>) -> bool {
    |root: Seq<char>| on_boundary(command, root)
}

/// What may stand before a path on a command line.
pub open spec fn opens_path(c: char) -> bool {
    is_space(c) || c == '=' || c == ':' || c == '"' || c == '\''
}

/// What may follow a path on a command line.
pub open spec fn closes_path(c: char) -> bool {
    is_space(c) || c == '/' || c == ':' || c == '"' || c == '\''
}

/// `needle` stands at `i` between two boundaries.
pub open spec fn bounded_at(s: Seq<char>, needle: Seq<char>, i: int) -> bool {
    &&& occurs_at(s, needle, i)
    &&& i == 0 || opens_path(s[i - 1])
    &&& i + needle.len() == s.len() || closes_path(s[i + needle.len()])
}

/// `needle` is not empty and stands somewhere in `s` between two boundaries.
pub open spec fn on_boundary(s: Seq<char>, needle: Seq<char>) -> bool {
    needle.len() > 0 && exists|i: int| #[trigger] bounded_at(s, needle, i)
}

/// The workspace that a working directory belongs to.
pub open spec fn dir_owner(dir: Seq<char>, t: TopologyView) -> Option<Seq<char>> {
    first_owner(roots_of(t), holds_dir(dir))
}

/// The workspace that a command line names.
pub open spec fn line_owner(command: Seq<char>, t: TopologyView) -> Option<Seq<char>> {
    first_owner(roots_of(t), on_line(command))
}

/// The owner by working directory.
pub open spec fn owner_by_cwd(pid: u32, snap: SnapshotView, t: TopologyView) -> Option<Seq<char>> {
    if snap.cwds.contains_key(pid) {
        dir_owner(snap.cwds[pid], t)
    } else {
        None
    }
}

/// The owner by command line.
pub open spec fn owner_by_command(pid: u32, snap: SnapshotView, t: TopologyView) -> Option<
    Seq<char>,
> {
    if snap.processes.contains_key(pid) {
        line_owner(snap.processes[pid].command, t)
    } else {
        None
    }
}

/// The owner of the process `pid`.
pub open spec fn owner_of(pid: u32, snap: SnapshotView, t: TopologyView) -> Option<
    AttributedView,
> {
    match shell_in(lineage(snap, pid), t.panes) {
        Some(a) => Some(a),
        None => match owner_by_cwd(pid, snap, t) {
            Some(ws) => Some(
                AttributedView { workspace_id: ws, attribution: AttributionView::Cwd },
            ),
            None => match owner_by_command(pid, snap, t) {
                Some(ws) => Some(
                    AttributedView { workspace_id: ws, attribution: AttributionView::Command },
                ),
                None => None,
            },
        },
    }
}

/// Attributes the process `pid` to a workspace, if any rule applies.
pub fn attribute(pid: u32, snapshot: &Snapshot, topology: &Topology) -> (r: Option<Attributed>)
    ensures
        opt_attributed(r) == owner_of(pid, snapshot@, topology@),
{
    if let Some(hit) = by_ancestry(pid, snapshot, topology) {
        return Some(hit);
    }
    let roots = topology.roots();
    if let Some(cwd) = snapshot.cwd_of(pid) {
        if let Some(ws) = deepest_root_containing(&roots, cwd.as_str()) {
            return Some(Attributed { workspace_id: ws, attribution: Attribution::Cwd });
        }
    }
    if let Some(command) = snapshot.command_of(pid) {
        if let Some(ws) = root_on_command_line(&roots, command.as_str()) {
            return Some(Attributed { workspace_id: ws, attribution: Attribution::Command });
        }
    }
    None
}

/// Attributes a container by its compose project directory.
pub fn attribute_container(working_dir: &str, topology: &Topology) -> (r: Option<Attributed>)
    ensures
        opt_attributed(r) == match dir_owner(working_dir@, topology@) {
            Some(ws) => Some(
                AttributedView { workspace_id: ws, attribution: AttributionView::Container },
            ),
            None => None,
        },
{
    let roots = topology.roots();
    match deepest_root_containing(&roots, working_dir) {
        Some(ws) => Some(Attributed { workspace_id: ws, attribution: Attribution::Container }),
        None => None,
    }
}

/// The pane whose shell is `pid` or the nearest of its ancestors that is one.
fn by_ancestry(pid: u32, snapshot: &Snapshot, topology: &Topology) -> (r: Option<Attributed>)
    ensures
        opt_attributed(r) == shell_in(lineage(snapshot@, pid), topology@.panes),
{
    let ghost line = lineage(snapshot@, pid);
    let ghost panes = topology@.panes;
    let ghost p = |q: u32| shell_at(panes, q) >= 0;
    if let Some(k) = topology.shell_pane(pid) {
        proof {
            assert(line[0] == pid);
            seqs::lemma_first_where_unique(line, p, 0);
        }
        return Some(hit(&topology.panes[k]));
    }
    let up = snapshot.ancestors(pid);
    let mut i: usize = 0;
    while i < up.len()
        invariant
            i <= up@.len(),
            line == seq![pid] + up@,
            line == lineage(snapshot@, pid),
            panes == topology@.panes,
            p == (|q: u32| shell_at(panes, q) >= 0),
            forall|j: int| 0 <= j < i + 1 ==> !p(#[trigger] line[j]),
        decreases up.len() - i,
    {
        assert(line[i + 1] == up@[i as int]);
        if let Some(k) = topology.shell_pane(up[i]) {
            proof {
                seqs::lemma_first_where_unique(line, p, i + 1);
            }
            return Some(hit(&topology.panes[k]));
        }
        i = i + 1;
    }
    proof {
        seqs::lemma_first_where_unique(line, p, line.len() as int);
    }
    None
}

/// What a pane's process is attributed to.
fn hit(pane: &PaneRef) -> (r: Attributed)
    ensures
        r@ == pane_hit(pane@),
{
    Attributed {
        workspace_id: pane.workspace_id.clone(),
        attribution: Attribution::Pane { pane_id: pane.pane_id.clone() },
    }
}

/// The owner of the first of `roots`, which stand deepest first, that `cwd`
/// lies under.
fn deepest_root_containing(roots: &Vec<(String, String)>, cwd: &str) -> (r: Option<String>)
    ensures
        opt_text(r) == first_owner(roots_view(roots@), holds_dir(cwd@)),
{
    let dir = path::normalise(cwd);
    let ghost p = holds_dir(cwd@);
    let k = seqs::find_where(
        roots,
        |e: &(String, String)| -> (b: bool)
            ensures
                b == p(e.0@)
            { path::is_under(dir.as_str(), e.0.as_str()) },
        Ghost(|e: (String, String)| p(e.0@)),
    );
    proof {
        seqs::lemma_first_where_map(
            roots@,
            |e: (String, String)| (e.0@, e.1@),
            |e: (String, String)| p(e.0@),
            |r: (Seq<char>, Seq<char>)| p(r.0),
        );
    }
    if k < roots.len() {
        Some(roots[k].1.clone())
    } else {
        None
    }
}

/// The owner of the first of `roots` that stands on the command line.
fn root_on_command_line(roots: &Vec<(String, String)>, command: &str) -> (r: Option<String>)
    ensures
        opt_text(r) == first_owner(roots_view(roots@), on_line(command@)),
{
    let ghost p = on_line(command@);
    let k = seqs::find_where(
        roots,
        |e: &(String, String)| -> (b: bool)
            ensures
                b == p(e.0@)
            { path_on_boundary(command, e.0.as_str()) },
        Ghost(|e: (String, String)| p(e.0@)),
    );
    proof {
        seqs::lemma_first_where_map(
            roots@,
            |e: (String, String)| (e.0@, e.1@),
            |e: (String, String)| p(e.0@),
            |r: (Seq<char>, Seq<char>)| p(r.0),
        );
    }
    if k < roots.len() {
        Some(roots[k].1.clone())
    } else {
        None
    }
}

/// Whether `needle` stands in `haystack` on a path boundary: after the start,
/// white space, `=`, `:` or a quote, and before the end, white space, `/`, `:`
/// or a quote.
pub fn path_on_boundary(haystack: &str, needle: &str) -> (r: bool)
    ensures
        r == on_boundary(haystack@, needle@),
{
    let h = text::chars_of(haystack);
    let n = text::chars_of(needle);
    if n.len() == 0 {
        return false;
    }
    if n.len() > h.len() {
        return false;
    }
    let total: usize = h.len();
    let last: usize = total - n.len();
    let mut i: usize = 0;
    while i <= last
        invariant
            h@ == haystack@,
            n@ == needle@,
            n@.len() > 0,
            total == h@.len(),
            last == total - n@.len(),
            i <= last + 1,
            forall|j: int| 0 <= j < i ==> !bounded_at(h@, n@, j),
        decreases last + 1 - i,
    {
        if text::stands_at(&h, &n, i) {
            let before = i == 0 || {
                let c = h[i - 1];
                text::space(c) || c == '=' || c == ':' || c == '"' || c == '\''
            };
            let after = i == last || {
                let c = h[i + n.len()];
                text::space(c) || c == '/' || c == ':' || c == '"' || c == '\''
            };
            if before && after {
                assert(bounded_at(h@, n@, i as int));
                return true;
            }
        }
        i = i + 1;
    }
    false
}

// ---------------------------------------------------------------------------
// Laws
// ---------------------------------------------------------------------------

/// Descent from a pane's shell decides before working directory and command
/// line, and the working directory before the command line.
pub proof fn ancestry_beats_directory_beats_command_line(
    pid: u32,
    snap: SnapshotView,
    t: TopologyView,
)
    ensures
        shell_in(lineage(snap, pid), t.panes) matches Some(a) ==> owner_of(pid, snap, t) == Some(a),
        shell_in(lineage(snap, pid), t.panes) is None ==> (owner_by_cwd(pid, snap, t) matches Some(
            ws,
        ) ==> owner_of(pid, snap, t) == Some(
            AttributedView { workspace_id: ws, attribution: AttributionView::Cwd },
        )),
        owner_of(pid, snap, t) matches Some(a) ==> (a.attribution is Command <==> shell_in(
            lineage(snap, pid),
            t.panes,
        ) is None && owner_by_cwd(pid, snap, t) is None),
{
}

proof fn lemma_owned_roots(cands: Seq<(Seq<char>, Seq<char>)>, excluded: Seq<Seq<char>>)
    ensures
        forall|i: int|
            0 <= i < owned_roots(cands, excluded).len() ==> !is_excluded(
                (#[trigger] owned_roots(cands, excluded)[i]).0,
                excluded,
            ) && exists|k: int|
                0 <= k < cands.len() && normal_form((#[trigger] cands[k]).0) == owned_roots(
                    cands,
                    excluded,
                )[i].0 && cands[k].1 == owned_roots(cands, excluded)[i].1,
        order::in_order(
            owned_roots(cands, excluded),
            |a: (Seq<char>, Seq<char>), b: (Seq<char>, Seq<char>)| a.0 != b.0,
        ),
    decreases cands.len(),
{
    if cands.len() > 0 {
        let front = cands.drop_last();
        let rest = owned_roots(front, excluded);
        let all = owned_roots(cands, excluded);
        lemma_owned_roots(front, excluded);
        assert forall|i: int| 0 <= i < all.len() implies !is_excluded(
            (#[trigger] all[i]).0,
            excluded,
        ) && exists|k: int|
            0 <= k < cands.len() && normal_form((#[trigger] cands[k]).0) == all[i].0 && cands[k].1
                == all[i].1 by {
            if i < rest.len() {
                assert(all[i] == rest[i]);
                let k = choose|k: int|
                    0 <= k < front.len() && normal_form((#[trigger] front[k]).0) == rest[i].0
                        && front[k].1 == rest[i].1;
                assert(cands[k] == front[k]);
            } else {
                assert(cands[cands.len() - 1] == cands.last());
            }
        }
        let rel = |a: (Seq<char>, Seq<char>), b: (Seq<char>, Seq<char>)| a.0 != b.0;
        assert forall|i: int, j: int| 0 <= i < j < all.len() implies rel(
            #[trigger] all[i],
            #[trigger] all[j],
        ) by {
            if j < rest.len() {
                assert(rel(rest[i], rest[j]));
            } else {
                assert(rest[i].0 != all[j].0);
            }
        }
    }
}

/// No excluded directory is a root, and no directory is a root twice.
pub proof fn excluded_directories_own_nothing(t: TopologyView)
    ensures
        forall|i: int|
            0 <= i < roots_of(t).len() ==> !is_excluded(
                (#[trigger] roots_of(t)[i]).0,
                t.excluded_roots,
            ),
        forall|i: int, j: int|
            0 <= i < j < roots_of(t).len() ==> (#[trigger] roots_of(t)[i]).0 != (
            #[trigger] roots_of(t)[j]).0,
{
    let own = owned_roots(candidates(t), t.excluded_roots);
    let rel = |a: (Seq<char>, Seq<char>), b: (Seq<char>, Seq<char>)| a.0 != b.0;
    lemma_owned_roots(candidates(t), t.excluded_roots);
    order::sorting_keeps_the_elements(own, deeper_first());
    order::lemma_sorted_pairwise(own, deeper_first(), rel);
    assert forall|i: int| 0 <= i < roots_of(t).len() implies !is_excluded(
        (#[trigger] roots_of(t)[i]).0,
        t.excluded_roots,
    ) by {
        assert(sorted(own, deeper_first()).contains(roots_of(t)[i]));
        assert(own.contains(roots_of(t)[i]));
        let k = choose|k: int| 0 <= k < own.len() && own[k] == roots_of(t)[i];
        assert(!is_excluded(own[k].0, t.excluded_roots));
    }
    assert forall|i: int, j: int| 0 <= i < j < roots_of(t).len() implies (
    #[trigger] roots_of(t)[i]).0 != (#[trigger] roots_of(t)[j]).0 by {
        assert(rel(roots_of(t)[i], roots_of(t)[j]));
    }
}

/// Of the roots that hold a directory the deepest owns it.
pub proof fn the_deepest_root_wins(dir: Seq<char>, t: TopologyView)
    ensures
        dir_owner(dir, t) is None <==> forall|i: int|
            0 <= i < roots_of(t).len() ==> !holds_dir(dir)((#[trigger] roots_of(t)[i]).0),
        dir_owner(dir, t) matches Some(ws) ==> exists|k: int|
            0 <= k < roots_of(t).len() && (#[trigger] roots_of(t)[k]).1 == ws && holds_dir(dir)(
                roots_of(t)[k].0,
            ) && forall|i: int|
                0 <= i < roots_of(t).len() && holds_dir(dir)((#[trigger] roots_of(t)[i]).0)
                    ==> depth_of(roots_of(t)[i].0) <= depth_of(roots_of(t)[k].0),
{
    let roots = roots_of(t);
    let p = holds_dir(dir);
    let q = |r: (Seq<char>, Seq<char>)| p(r.0);
    let k = first_where(roots, q) as int;
    seqs::lemma_first_where(roots, q);
    assert(order::total_order(deeper_first()));
    order::sorting_gives_an_order(
        owned_roots(candidates(t), t.excluded_roots),
        deeper_first(),
    );
    assert forall|i: int| 0 <= i < k implies !p((#[trigger] roots[i]).0) by {
        assert(!q(roots[i]));
    }
    if k < roots.len() {
        assert(q(roots[k]));
        assert forall|i: int| 0 <= i < roots.len() && p((#[trigger] roots[i]).0) implies depth_of(
            roots[i].0,
        ) <= depth_of(roots[k].0) by {
            assert(q(roots[i]));
            if k < i {
                assert(deeper_first()(roots[k], roots[i]));
            }
        }
        assert(roots[k].1 == dir_owner(dir, t)->0);
    }
}

/// Some workspace with a checkout path or some pane has this workspace id.
pub open spec fn is_known(ws: Seq<char>, t: TopologyView) -> bool {
    ||| exists|i: int| 0 <= i < t.workspaces.len() && (#[trigger] t.workspaces[i]).workspace_id == ws
    ||| exists|i: int| 0 <= i < t.panes.len() && (#[trigger] t.panes[i]).workspace_id == ws
}

proof fn lemma_checkouts_known(ws: Seq<WorkspaceView>)
    ensures
        forall|i: int|
            0 <= i < checkouts(ws).len() ==> exists|k: int|
                0 <= k < ws.len() && (#[trigger] ws[k]).workspace_id == (#[trigger] checkouts(
                    ws,
                )[i]).1,
    decreases ws.len(),
{
    if ws.len() > 0 {
        let front = ws.drop_last();
        lemma_checkouts_known(front);
        assert forall|i: int| 0 <= i < checkouts(ws).len() implies exists|k: int|
            0 <= k < ws.len() && (#[trigger] ws[k]).workspace_id == (#[trigger] checkouts(
                ws,
            )[i]).1 by {
            if i < checkouts(front).len() {
                assert(checkouts(ws)[i] == checkouts(front)[i]);
                let k = choose|k: int|
                    0 <= k < front.len() && (#[trigger] front[k]).workspace_id == checkouts(
                        front,
                    )[i].1;
                assert(ws[k] == front[k]);
            } else {
                assert(ws[ws.len() - 1].workspace_id == checkouts(ws)[i].1);
            }
        }
    }
}

proof fn lemma_pane_dirs_known(panes: Seq<PaneView>)
    ensures
        forall|i: int|
            0 <= i < all_pane_dirs(panes).len() ==> exists|k: int|
                0 <= k < panes.len() && (#[trigger] panes[k]).workspace_id == (
                #[trigger] all_pane_dirs(panes)[i]).1,
    decreases panes.len(),
{
    if panes.len() > 0 {
        let front = panes.drop_last();
        lemma_pane_dirs_known(front);
        assert forall|i: int| 0 <= i < all_pane_dirs(panes).len() implies exists|k: int|
            0 <= k < panes.len() && (#[trigger] panes[k]).workspace_id == (
            #[trigger] all_pane_dirs(panes)[i]).1 by {
            if i < all_pane_dirs(front).len() {
                assert(all_pane_dirs(panes)[i] == all_pane_dirs(front)[i]);
                let k = choose|k: int|
                    0 <= k < front.len() && (#[trigger] front[k]).workspace_id == all_pane_dirs(
                        front,
                    )[i].1;
                assert(panes[k] == front[k]);
            } else {
                assert(panes[panes.len() - 1].workspace_id == all_pane_dirs(panes)[i].1);
            }
        }
    }
}

proof fn lemma_roots_known(t: TopologyView, k: int)
    requires
        0 <= k < roots_of(t).len(),
    ensures
        is_known(roots_of(t)[k].1, t),
{
    let cands = candidates(t);
    let own = owned_roots(cands, t.excluded_roots);
    lemma_owned_roots(cands, t.excluded_roots);
    order::sorting_keeps_the_elements(own, deeper_first());
    assert(sorted(own, deeper_first()).contains(roots_of(t)[k]));
    assert(own.contains(roots_of(t)[k]));
    let i = choose|i: int| 0 <= i < own.len() && own[i] == roots_of(t)[k];
    let j = choose|j: int|
        0 <= j < cands.len() && normal_form((#[trigger] cands[j]).0) == own[i].0 && cands[j].1
            == own[i].1;
    lemma_checkouts_known(t.workspaces);
    lemma_pane_dirs_known(t.panes);
    let n = checkouts(t.workspaces).len();
    if j < n {
        assert(cands[j] == checkouts(t.workspaces)[j]);
    } else {
        assert(cands[j] == all_pane_dirs(t.panes)[j - n]);
    }
}

/// A listener goes to no workspace but those of the session.
pub proof fn only_known_workspaces_own_listeners(pid: u32, snap: SnapshotView, t: TopologyView)
    ensures
        owner_of(pid, snap, t) matches Some(a) ==> is_known(a.workspace_id, t),
{
    let line = lineage(snap, pid);
    let shells = |p: u32| shell_at(t.panes, p) >= 0;
    seqs::lemma_first_where(line, shells);
    let k = first_where(line, shells) as int;
    if k < line.len() {
        assert(shells(line[k]));
        seqs::lemma_last_where(t.panes, is_shell(line[k]));
        assert(t.panes[shell_at(t.panes, line[k])].workspace_id == owner_of(
            pid,
            snap,
            t,
        )->0.workspace_id);
    } else {
        let roots = roots_of(t);
        if let Some(ws) = owner_by_cwd(pid, snap, t) {
            let q = |r: (Seq<char>, Seq<char>)| holds_dir(snap.cwds[pid])(r.0);
            lemma_roots_known(t, first_where(roots, q) as int);
        } else if let Some(ws) = owner_by_command(pid, snap, t) {
            let q = |r: (Seq<char>, Seq<char>)| on_line(snap.processes[pid].command)(r.0);
            lemma_roots_known(t, first_where(roots, q) as int);
        }
    }
}

/// A directory belongs to no workspace but those of the session.
pub proof fn only_known_workspaces_own_directories(dir: Seq<char>, t: TopologyView)
    ensures
        dir_owner(dir, t) matches Some(ws) ==> is_known(ws, t),
{
    if let Some(ws) = dir_owner(dir, t) {
        let q = |r: (Seq<char>, Seq<char>)| holds_dir(dir)(r.0);
        lemma_roots_known(t, first_where(roots_of(t), q) as int);
    }
}

/// `path` climbs from a process to its parent, to the parent of that, and so on:
/// at most 64 steps, never to the first processes of the system and never back
/// to where it started.
pub open spec fn climbs(table: Map<u32, ProcessView>, path: Seq<u32>) -> bool {
    &&& 1 <= path.len() <= 65
    &&& forall|i: int|
        0 <= i < path.len() - 1 ==> table.contains_key(#[trigger] path[i]) && path[i + 1]
            == table[path[i]].ppid && path[i + 1] > 1 && path[i + 1] != path[0]
}

/// The shell of some pane is `pid`.
pub open spec fn is_some_shell(panes: Seq<PaneView>, pid: u32) -> bool {
    exists|m: int| 0 <= m < panes.len() && (#[trigger] panes[m]).shell_pid == Some(pid)
}

proof fn lemma_shell_at(panes: Seq<PaneView>, pid: u32)
    ensures
        is_some_shell(panes, pid) <==> shell_at(panes, pid) >= 0,
        shell_at(panes, pid) < panes.len(),
        shell_at(panes, pid) >= 0 ==> panes[shell_at(panes, pid)].shell_pid == Some(pid),
{
    seqs::lemma_last_where(panes, is_shell(pid));
    if is_some_shell(panes, pid) {
        let m = choose|m: int|
            0 <= m < panes.len() && (#[trigger] panes[m]).shell_pid == Some(pid);
        assert(is_shell(pid)(panes[m]));
    }
}

/// Where a climb ends at a process that it has not met before, the ancestors go
/// the same way.
proof fn lemma_climb_follows(
    table: Map<u32, ProcessView>,
    path: Seq<u32>,
    start: int,
    n: nat,
)
    requires
        climbs(table, path),
        0 <= start < path.len(),
        path.len() - 1 - start <= n,
        forall|i: int| 0 <= i < path.len() - 1 ==> #[trigger] path[i] != path[path.len() - 1],
    ensures
        climb(table, path[0], path[start], n).len() >= path.len() - 1 - start,
        forall|j: int|
            0 <= j < path.len() - 1 - start ==> #[trigger] climb(
                table,
                path[0],
                path[start],
                n,
            )[j] == path[start + 1 + j],
    decreases path.len() - start,
{
    if start < path.len() - 1 {
        let next = path[start + 1];
        assert(table.contains_key(path[start]));
        if next == path[start] {
            lemma_stuck(table, path, start, path.len() - 1);
            assert(false);
        }
        lemma_climb_follows(table, path, start + 1, (n - 1) as nat);
        let rest = climb(table, path[0], next, (n - 1) as nat);
        assert(climb(table, path[0], path[start], n) == seq![next] + rest);
        assert forall|j: int| 0 <= j < path.len() - 1 - start implies #[trigger] climb(
            table,
            path[0],
            path[start],
            n,
        )[j] == path[start + 1 + j] by {
            if j > 0 {
                assert((seq![next] + rest)[j] == rest[j - 1]);
            }
        }
    }
}

/// A process that is its own parent is climbed from no further.
proof fn lemma_stuck(table: Map<u32, ProcessView>, path: Seq<u32>, start: int, k: int)
    requires
        climbs(table, path),
        0 <= start < k < path.len(),
        path[start + 1] == path[start],
    ensures
        path[k] == path[start],
    decreases k,
{
    if k > start + 1 {
        lemma_stuck(table, path, start, k - 1);
        assert(table.contains_key(path[k - 1]));
        assert(table.contains_key(path[start]));
        assert(path[k - 1 + 1] == table[path[k - 1]].ppid);
    }
}

/// A process belongs to the pane whose shell is met first on the way up from it:
/// where a climb over the parents ends at the shell of a pane, and no process
/// before is one, that pane owns it, however far up the shell is. Of several
/// panes with this shell the last counts.
pub proof fn the_nearest_shell_owns_its_descendants(
    pid: u32,
    path: Seq<u32>,
    m: int,
    snap: SnapshotView,
    t: TopologyView,
)
    requires
        climbs(snap.processes, path),
        path[0] == pid,
        0 <= m < t.panes.len(),
        t.panes[m].shell_pid == Some(path.last()),
        forall|j: int|
            m < j < t.panes.len() ==> (#[trigger] t.panes[j]).shell_pid != Some(path.last()),
        forall|i: int| 0 <= i < path.len() - 1 ==> !is_some_shell(t.panes, #[trigger] path[i]),
    ensures
        owner_of(pid, snap, t) == Some(
            AttributedView {
                workspace_id: t.panes[m].workspace_id,
                attribution: AttributionView::Pane { pane_id: t.panes[m].pane_id },
            },
        ),
{
    let table = snap.processes;
    let k = path.len() - 1;
    let line = lineage(snap, pid);
    let p = |q: u32| shell_at(t.panes, q) >= 0;
    assert(is_some_shell(t.panes, path[k]));
    assert forall|i: int| 0 <= i < k implies #[trigger] path[i] != path[k] by {
        assert(!is_some_shell(t.panes, path[i]));
    }
    lemma_climb_follows(table, path, 0, 64);
    let up = climb(table, pid, pid, 64);
    assert(line == seq![pid] + up);
    assert forall|i: int| 0 <= i <= k implies #[trigger] line[i] == path[i] by {
        if i > 0 {
            assert(line[i] == up[i - 1]);
        }
    }
    assert forall|i: int| 0 <= i < k implies !p(#[trigger] line[i]) by {
        assert(line[i] == path[i]);
        assert(!is_some_shell(t.panes, path[i]));
        lemma_shell_at(t.panes, path[i]);
    }
    lemma_shell_at(t.panes, path[k]);
    assert(line[k] == path[k]);
    seqs::lemma_first_where_unique(line, p, k);
    assert forall|j: int| m < j < t.panes.len() implies !is_shell(path[k])(
        #[trigger] t.panes[j],
    ) by {}
    seqs::lemma_last_where_unique(t.panes, is_shell(path[k]), m);
}

/// The ancestors are a climb.
proof fn lemma_ancestors_climb(table: Map<u32, ProcessView>, pid: u32, cur: u32, n: nat)
    ensures
        ({
            let path = seq![cur] + climb(table, pid, cur, n);
            &&& path.len() <= n + 1
            &&& forall|i: int|
                0 <= i < path.len() - 1 ==> table.contains_key(#[trigger] path[i]) && path[i + 1]
                    == table[path[i]].ppid && path[i + 1] > 1 && path[i + 1] != pid
        }),
    decreases n,
{
    let up = climb(table, pid, cur, n);
    let path = seq![cur] + up;
    if up.len() > 0 {
        let next = table[cur].ppid;
        lemma_ancestors_climb(table, pid, next, (n - 1) as nat);
        let rest = seq![next] + climb(table, pid, next, (n - 1) as nat);
        assert(path =~= seq![cur] + rest);
        assert forall|i: int| 0 <= i < path.len() - 1 implies table.contains_key(
            #[trigger] path[i],
        ) && path[i + 1] == table[path[i]].ppid && path[i + 1] > 1 && path[i + 1] != pid by {
            if i > 0 {
                assert(path[i] == rest[i - 1]);
                assert(path[i + 1] == rest[i - 1 + 1]);
                assert(table.contains_key(rest[i - 1]));
            }
        }
    }
}

/// What is attributed to a pane descends from its shell, and what is not has no
/// pane's shell above it.
pub proof fn only_descendants_belong_to_a_pane(pid: u32, snap: SnapshotView, t: TopologyView)
    ensures
        owner_of(pid, snap, t) matches Some(a) ==> (a.attribution matches AttributionView::Pane {
            pane_id,
        } ==> exists|path: Seq<u32>, m: int| #[trigger]
            climbs(snap.processes, path) && path[0] == pid && 0 <= m < t.panes.len() && (
            #[trigger] t.panes[m]).shell_pid == Some(path.last()) && t.panes[m].pane_id == pane_id
                && t.panes[m].workspace_id == a.workspace_id),
        forall|path: Seq<u32>| #[trigger]
            climbs(snap.processes, path) && path[0] == pid && is_some_shell(t.panes, path.last())
                ==> (owner_of(pid, snap, t) matches Some(a) && a.attribution is Pane),
{
    let table = snap.processes;
    let line = lineage(snap, pid);
    let p = |q: u32| shell_at(t.panes, q) >= 0;
    let k = first_where(line, p) as int;
    seqs::lemma_first_where(line, p);
    lemma_ancestors_climb(table, pid, pid, 64);
    if k < line.len() {
        let path = line.take(k + 1);
        assert(p(line[k]));
        lemma_shell_at(t.panes, line[k]);
        assert(climbs(table, path)) by {
            assert forall|i: int| 0 <= i < path.len() - 1 implies table.contains_key(
                #[trigger] path[i],
            ) && path[i + 1] == table[path[i]].ppid && path[i + 1] > 1 && path[i + 1]
                != path[0] by {
                assert(path[i] == line[i]);
                assert(path[i + 1] == line[i + 1]);
            }
        }
        let m = shell_at(t.panes, line[k]);
        assert(path.last() == line[k]);
        assert(t.panes[m].shell_pid == Some(path.last()));
    } else {
        assert forall|path: Seq<u32>| #[trigger]
            climbs(table, path) && path[0] == pid implies !is_some_shell(t.panes, path.last()) by {
            lemma_climb_within(table, path, line);
            let i = choose|i: int| 0 <= i < line.len() && line[i] == path.last();
            assert(!p(line[i]));
            lemma_shell_at(t.panes, path.last());
        }
    }
}

/// Where a climb ends stands in the lineage.
proof fn lemma_climb_within(
    table: Map<u32, ProcessView>,
    path: Seq<u32>,
    line: Seq<u32>,
)
    requires
        climbs(table, path),
        line == seq![path[0]] + climb(table, path[0], path[0], 64),
    ensures
        line.contains(path.last()),
    decreases path.len(),
{
    let k = path.len() - 1;
    if exists|i: int| 0 <= i < k && #[trigger] path[i] == path[k] {
        let i = choose|i: int| 0 <= i < k && #[trigger] path[i] == path[k];
        let shorter = path.take(i + 1);
        assert(climbs(table, shorter)) by {
            assert forall|j: int| 0 <= j < shorter.len() - 1 implies table.contains_key(
                #[trigger] shorter[j],
            ) && shorter[j + 1] == table[shorter[j]].ppid && shorter[j + 1] > 1 && shorter[j + 1]
                != shorter[0] by {
                assert(shorter[j] == path[j]);
                assert(shorter[j + 1] == path[j + 1]);
            }
        }
        lemma_climb_within(table, shorter, line);
        assert(shorter.last() == path.last());
    } else {
        lemma_climb_follows(table, path, 0, 64);
        let up = climb(table, path[0], path[0], 64);
        if k > 0 {
            assert(up[k - 1] == path[k]);
            assert(line[k] == path[k]);
        } else {
            assert(line[0] == path[0]);
        }
    }
}

/// `dir` is the checkout of workspace `ws` or a working directory of one of its
/// panes.
pub open spec fn belongs(t: TopologyView, dir: Seq<char>, ws: Seq<char>) -> bool {
    ||| exists|i: int|
        0 <= i < t.workspaces.len() && (#[trigger] t.workspaces[i]).checkout_path == Some(dir)
            && t.workspaces[i].workspace_id == ws
    ||| exists|i: int, c: int|
        0 <= i < t.panes.len() && 0 <= c < t.panes[i].cwds.len()
            && #[trigger] t.panes[i].cwds[c] == dir && t.panes[i].workspace_id == ws
}

/// A workspace before `i` has this checkout.
spec fn is_checkout_before(ws: Seq<WorkspaceView>, i: int, path: Seq<char>) -> bool {
    exists|h: int| 0 <= h < i && (#[trigger] ws[h]).checkout_path == Some(path)
}

proof fn lemma_checkout_listed(ws: Seq<WorkspaceView>, i: int) -> (k: int)
    requires
        0 <= i < ws.len(),
        ws[i].checkout_path is Some,
    ensures
        0 <= k < checkouts(ws).len(),
        checkouts(ws)[k] == (ws[i].checkout_path->0, ws[i].workspace_id),
        forall|j: int| 0 <= j < k ==> is_checkout_before(ws, i, (#[trigger] checkouts(ws)[j]).0),
    decreases ws.len(),
{
    let front = ws.drop_last();
    if i == ws.len() - 1 {
        let k = checkouts(front).len() as int;
        assert forall|j: int| 0 <= j < k implies is_checkout_before(
            ws,
            i,
            (#[trigger] checkouts(ws)[j]).0,
        ) by {
            let h = lemma_checkout_source(front, j);
            assert(ws[h] == front[h]);
            assert(checkouts(ws)[j] == checkouts(front)[j]);
        }
        k
    } else {
        let k = lemma_checkout_listed(front, i);
        assert(checkouts(ws)[k] == checkouts(front)[k]);
        assert forall|j: int| 0 <= j < k implies is_checkout_before(
            ws,
            i,
            (#[trigger] checkouts(ws)[j]).0,
        ) by {
            assert(checkouts(ws)[j] == checkouts(front)[j]);
            assert(is_checkout_before(front, i, checkouts(front)[j].0));
            let h = choose|h: int|
                0 <= h < i && (#[trigger] front[h]).checkout_path == Some(checkouts(front)[j].0);
            assert(ws[h] == front[h]);
        }
        k
    }
}

proof fn lemma_checkout_source(ws: Seq<WorkspaceView>, k: int) -> (i: int)
    requires
        0 <= k < checkouts(ws).len(),
    ensures
        0 <= i < ws.len(),
        ws[i].checkout_path == Some(checkouts(ws)[k].0),
        ws[i].workspace_id == checkouts(ws)[k].1,
    decreases ws.len(),
{
    let front = ws.drop_last();
    if k < checkouts(front).len() {
        assert(checkouts(ws)[k] == checkouts(front)[k]);
        let i = lemma_checkout_source(front, k);
        assert(ws[i] == front[i]);
        i
    } else {
        ws.len() - 1
    }
}

proof fn lemma_pane_dir_listed(panes: Seq<PaneView>, i: int, c: int) -> (k: int)
    requires
        0 <= i < panes.len(),
        0 <= c < panes[i].cwds.len(),
    ensures
        0 <= k < all_pane_dirs(panes).len(),
        all_pane_dirs(panes)[k] == (panes[i].cwds[c], panes[i].workspace_id),
    decreases panes.len(),
{
    let front = panes.drop_last();
    if i == panes.len() - 1 {
        let k = all_pane_dirs(front).len() + c;
        assert(all_pane_dirs(panes)[k] == pane_dirs(panes[i])[c]);
        k
    } else {
        let k = lemma_pane_dir_listed(front, i, c);
        assert(all_pane_dirs(panes)[k] == all_pane_dirs(front)[k]);
        k
    }
}

proof fn lemma_pane_dir_source(panes: Seq<PaneView>, k: int) -> (ic: (int, int))
    requires
        0 <= k < all_pane_dirs(panes).len(),
    ensures
        0 <= ic.0 < panes.len(),
        0 <= ic.1 < panes[ic.0].cwds.len(),
        panes[ic.0].cwds[ic.1] == all_pane_dirs(panes)[k].0,
        panes[ic.0].workspace_id == all_pane_dirs(panes)[k].1,
    decreases panes.len(),
{
    let front = panes.drop_last();
    let n = all_pane_dirs(front).len();
    if k < n {
        assert(all_pane_dirs(panes)[k] == all_pane_dirs(front)[k]);
        let ic = lemma_pane_dir_source(front, k);
        assert(panes[ic.0] == front[ic.0]);
        ic
    } else {
        assert(all_pane_dirs(panes)[k] == pane_dirs(panes.last())[k - n]);
        (panes.len() - 1, k - n)
    }
}

proof fn lemma_belongs(t: TopologyView, dir: Seq<char>, ws: Seq<char>)
    ensures
        belongs(t, dir, ws) <==> candidates(t).contains((dir, ws)),
{
    let cands = candidates(t);
    let n = checkouts(t.workspaces).len();
    if belongs(t, dir, ws) {
        if exists|i: int|
            0 <= i < t.workspaces.len() && (#[trigger] t.workspaces[i]).checkout_path == Some(dir)
                && t.workspaces[i].workspace_id == ws {
            let i = choose|i: int|
                0 <= i < t.workspaces.len() && (#[trigger] t.workspaces[i]).checkout_path == Some(
                    dir,
                ) && t.workspaces[i].workspace_id == ws;
            let k = lemma_checkout_listed(t.workspaces, i);
            assert(cands[k] == (dir, ws));
        } else {
            let (i, c) = choose|i: int, c: int|
                0 <= i < t.panes.len() && 0 <= c < t.panes[i].cwds.len()
                    && #[trigger] t.panes[i].cwds[c] == dir && t.panes[i].workspace_id == ws;
            let k = lemma_pane_dir_listed(t.panes, i, c);
            assert(cands[n + k] == (dir, ws));
        }
    }
    if cands.contains((dir, ws)) {
        let k = choose|k: int| 0 <= k < cands.len() && cands[k] == (dir, ws);
        if k < n {
            assert(cands[k] == checkouts(t.workspaces)[k]);
            let i = lemma_checkout_source(t.workspaces, k);
            assert(t.workspaces[i].checkout_path == Some(dir));
        } else {
            assert(cands[k] == all_pane_dirs(t.panes)[k - n]);
            let ic = lemma_pane_dir_source(t.panes, k - n);
            assert(t.panes[ic.0].cwds[ic.1] == dir);
        }
    }
}

/// The first candidate of a directory owns it.
proof fn lemma_first_candidate_owns(
    cands: Seq<(Seq<char>, Seq<char>)>,
    excluded: Seq<Seq<char>>,
    k: int,
)
    requires
        0 <= k < cands.len(),
        !is_excluded(normal_form(cands[k].0), excluded),
        forall|j: int|
            0 <= j < k ==> normal_form((#[trigger] cands[j]).0) != normal_form(cands[k].0),
    ensures
        owned_roots(cands, excluded).contains((normal_form(cands[k].0), cands[k].1)),
    decreases cands.len(),
{
    let front = cands.drop_last();
    let rest = owned_roots(front, excluded);
    let all = owned_roots(cands, excluded);
    let want = (normal_form(cands[k].0), cands[k].1);
    if k < front.len() {
        assert forall|j: int| 0 <= j < k implies normal_form((#[trigger] front[j]).0)
            != normal_form(front[k].0) by {
            assert(front[j] == cands[j]);
        }
        lemma_first_candidate_owns(front, excluded, k);
        let i = choose|i: int| 0 <= i < rest.len() && rest[i] == want;
        assert(all[i] == want);
    } else {
        lemma_owned_roots(front, excluded);
        if is_owned(want.0, rest) {
            let i = choose|i: int| 0 <= i < rest.len() && (#[trigger] rest[i]).0 == want.0;
            let h = choose|h: int|
                0 <= h < front.len() && normal_form((#[trigger] front[h]).0) == rest[i].0
                    && front[h].1 == rest[i].1;
            assert(cands[h] == front[h]);
        }
        assert(all[all.len() - 1] == want);
    }
}

proof fn lemma_owned_complete(
    cands: Seq<(Seq<char>, Seq<char>)>,
    excluded: Seq<Seq<char>>,
    k: int,
)
    requires
        0 <= k < cands.len(),
        !is_excluded(normal_form(cands[k].0), excluded),
    ensures
        is_owned(normal_form(cands[k].0), owned_roots(cands, excluded)),
    decreases k,
{
    let path = normal_form(cands[k].0);
    if exists|j: int| 0 <= j < k && normal_form((#[trigger] cands[j]).0) == path {
        let j = choose|j: int| 0 <= j < k && normal_form((#[trigger] cands[j]).0) == path;
        lemma_owned_complete(cands, excluded, j);
    } else {
        lemma_first_candidate_owns(cands, excluded, k);
        let own = owned_roots(cands, excluded);
        let i = choose|i: int| 0 <= i < own.len() && own[i] == (path, cands[k].1);
        assert(own[i].0 == path);
    }
}

/// A root comes from a directory of its owner that is not excluded.
spec fn is_rooted(t: TopologyView, root: (Seq<char>, Seq<char>)) -> bool {
    exists|dir: Seq<char>| #[trigger]
        belongs(t, dir, root.1) && normal_form(dir) == root.0 && !is_excluded(
            normal_form(dir),
            t.excluded_roots,
        )
}

/// Roots are the directories of workspaces and panes, but for those excluded.
proof fn lemma_roots(t: TopologyView)
    ensures
        forall|i: int| 0 <= i < roots_of(t).len() ==> is_rooted(t, #[trigger] roots_of(t)[i]),
        forall|dir: Seq<char>, ws: Seq<char>| #[trigger]
            belongs(t, dir, ws) && !is_excluded(normal_form(dir), t.excluded_roots) ==> is_owned(
                normal_form(dir),
                roots_of(t),
            ),
{
    let cands = candidates(t);
    let own = owned_roots(cands, t.excluded_roots);
    let roots = roots_of(t);
    lemma_owned_roots(cands, t.excluded_roots);
    order::sorting_keeps_the_elements(own, deeper_first());
    assert forall|i: int| 0 <= i < roots.len() implies is_rooted(t, #[trigger] roots[i]) by {
        assert(roots.contains(roots[i]));
        assert(own.contains(roots[i]));
        let k = choose|k: int| 0 <= k < own.len() && own[k] == roots[i];
        let h = choose|h: int|
            0 <= h < cands.len() && normal_form((#[trigger] cands[h]).0) == own[k].0 && cands[h].1
                == own[k].1;
        assert(cands.contains((cands[h].0, cands[h].1)));
        lemma_belongs(t, cands[h].0, cands[h].1);
        assert(belongs(t, cands[h].0, roots[i].1));
    }
    assert forall|dir: Seq<char>, ws: Seq<char>| #[trigger]
        belongs(t, dir, ws) && !is_excluded(normal_form(dir), t.excluded_roots) implies is_owned(
        normal_form(dir),
        roots,
    ) by {
        lemma_belongs(t, dir, ws);
        let k = choose|k: int| 0 <= k < cands.len() && cands[k] == (dir, ws);
        lemma_owned_complete(cands, t.excluded_roots, k);
        let i = choose|i: int| 0 <= i < own.len() && (#[trigger] own[i]).0 == normal_form(dir);
        assert(own.contains(own[i]));
        assert(roots.contains(own[i]));
        let j = choose|j: int| 0 <= j < roots.len() && roots[j] == own[i];
        assert(roots[j].0 == normal_form(dir));
    }
}

/// `dir` belongs to `ws`, is not excluded, and passes in its normal form.
pub open spec fn claims(
    t: TopologyView,
    dir: Seq<char>,
    ws: Seq<char>,
    passes: spec_fn(Seq<char>) -> bool,
) -> bool {
    &&& belongs(t, dir, ws)
    &&& passes(normal_form(dir))
    &&& forall|e: int|
        0 <= e < t.excluded_roots.len() ==> normal_form(#[trigger] t.excluded_roots[e])
            != normal_form(dir)
}

/// `ws` has the deepest of the directories that pass.
pub open spec fn is_deepest_owner(
    t: TopologyView,
    ws: Seq<char>,
    passes: spec_fn(Seq<char>) -> bool,
) -> bool {
    exists|dir: Seq<char>| #[trigger]
        claims(t, dir, ws, passes) && forall|d: Seq<char>, w: Seq<char>| #[trigger]
            claims(t, d, w, passes) ==> depth_of(normal_form(d)) <= depth_of(normal_form(dir))
}

proof fn lemma_first_owner(t: TopologyView, p: spec_fn(Seq<char>) -> bool)
    ensures
        first_owner(roots_of(t), p) matches Some(ws) ==> is_deepest_owner(t, ws, p),
        forall|d: Seq<char>, w: Seq<char>| #[trigger]
            claims(t, d, w, p) ==> first_owner(roots_of(t), p) is Some,
{
    let roots = roots_of(t);
    let q = |r: (Seq<char>, Seq<char>)| p(r.0);
    let k = first_where(roots, q) as int;
    seqs::lemma_first_where(roots, q);
    lemma_roots(t);
    assert(order::total_order(deeper_first()));
    order::sorting_gives_an_order(owned_roots(candidates(t), t.excluded_roots), deeper_first());
    assert forall|d: Seq<char>, w: Seq<char>| #[trigger] claims(t, d, w, p) implies k
        < roots.len() && depth_of(normal_form(d)) <= depth_of(roots[k].0) by {
        assert(belongs(t, d, w));
        assert(!is_excluded(normal_form(d), t.excluded_roots));
        let i = choose|i: int| 0 <= i < roots.len() && (#[trigger] roots[i]).0 == normal_form(d);
        assert(q(roots[i]));
        if i < k {
            assert(!q(roots[i]));
        }
        if k < i {
            assert(deeper_first()(roots[k], roots[i]));
        }
    }
    if k < roots.len() {
        assert(q(roots[k]));
        assert(is_rooted(t, roots[k]));
        let dir = choose|dir: Seq<char>| #[trigger]
            belongs(t, dir, roots[k].1) && normal_form(dir) == roots[k].0 && !is_excluded(
                normal_form(dir),
                t.excluded_roots,
            );
        assert forall|e: int| 0 <= e < t.excluded_roots.len() implies normal_form(
            #[trigger] t.excluded_roots[e],
        ) != normal_form(dir) by {
            assert(!is_excluded(normal_form(dir), t.excluded_roots));
        }
        assert(claims(t, dir, roots[k].1, p));
    }
}

/// A directory belongs to a workspace that has a checkout or a pane in it or
/// above it: to the one that is deepest among those, leaving out what is
/// excluded; and to none where there is no such.
pub proof fn a_directory_belongs_to_the_nearest_above_it(dir: Seq<char>, t: TopologyView)
    ensures
        ({
            let above = |root: Seq<char>| lies_under(normal_form(dir), root);
            &&& dir_owner(dir, t) matches Some(ws) ==> is_deepest_owner(t, ws, above)
            &&& forall|d: Seq<char>, ws: Seq<char>| #[trigger]
                claims(t, d, ws, above) ==> dir_owner(dir, t) is Some
        }),
{
    let above = |root: Seq<char>| lies_under(normal_form(dir), root);
    assert(above =~= holds_dir(dir));
    lemma_first_owner(t, above);
}

/// A root stands on a command line where it is not empty and stands between
/// the start, white space, `=`, `:` or a quote and the end, white space, `/`,
/// `:` or a quote.
pub open spec fn is_named_on(command: Seq<char>, root: Seq<char>) -> bool {
    root.len() > 0 && exists|front: Seq<char>, back: Seq<char>|
        command == #[trigger] (front + root + back) && (front.len() == 0 || is_space(front.last())
            || front.last() == '=' || front.last() == ':' || front.last() == '"' || front.last()
            == '\'') && (back.len() == 0 || is_space(back[0]) || back[0] == '/' || back[0] == ':'
            || back[0] == '"' || back[0] == '\'')
}

/// [`path_on_boundary`] finds exactly what stands on a command line.
pub proof fn a_path_stands_on_a_line_between_boundaries(command: Seq<char>, root: Seq<char>)
    ensures
        on_boundary(command, root) <==> is_named_on(command, root),
{
    if on_boundary(command, root) {
        let i = choose|i: int| #[trigger] bounded_at(command, root, i);
        let front = command.take(i);
        let back = command.skip(i + root.len());
        assert(front + root + back =~= command) by {
            assert(command.subrange(i, i + root.len()) == root);
            assert forall|x: int| i <= x < i + root.len() implies command[x] == root[x - i] by {
                assert(command.subrange(i, i + root.len())[x - i] == command[x]);
            }
        }
    }
    if is_named_on(command, root) {
        let (front, back) = choose|front: Seq<char>, back: Seq<char>|
            command == #[trigger] (front + root + back) && (front.len() == 0 || is_space(
                front.last(),
            ) || front.last() == '=' || front.last() == ':' || front.last() == '"' || front.last()
                == '\'') && (back.len() == 0 || is_space(back[0]) || back[0] == '/' || back[0]
                == ':' || back[0] == '"' || back[0] == '\'');
        let i = front.len() as int;
        assert(command.subrange(i, i + root.len()) =~= root);
        if i > 0 {
            assert(command[i - 1] == front.last());
        }
        if back.len() > 0 {
            assert(command[i + root.len()] == back[0]);
        }
        assert(bounded_at(command, root, i));
    }
}

/// A command line belongs to the workspace with the deepest directory that
/// stands on it.
pub proof fn a_command_line_belongs_to_the_deepest_on_it(command: Seq<char>, t: TopologyView)
    ensures
        ({
            let on = |root: Seq<char>| is_named_on(command, root);
            &&& line_owner(command, t) matches Some(ws) ==> is_deepest_owner(t, ws, on)
            &&& forall|d: Seq<char>, ws: Seq<char>| #[trigger]
                claims(t, d, ws, on) ==> line_owner(command, t) is Some
        }),
{
    let on = |root: Seq<char>| is_named_on(command, root);
    assert forall|root: Seq<char>| #[trigger] on(root) == on_line(command)(root) by {
        a_path_stands_on_a_line_between_boundaries(command, root);
    }
    assert(on =~= on_line(command));
    lemma_first_owner(t, on);
}

/// A process without a pane's shell above it goes by its working directory, and
/// where that belongs to no workspace by its command line.
pub proof fn directory_and_command_line_decide_next(pid: u32, snap: SnapshotView, t: TopologyView)
    requires
        forall|path: Seq<u32>| #[trigger]
            climbs(snap.processes, path) && path[0] == pid ==> !is_some_shell(
                t.panes,
                path.last(),
            ),
    ensures
        ({
            let by_dir = if snap.cwds.contains_key(pid) {
                dir_owner(snap.cwds[pid], t)
            } else {
                None
            };
            let by_line = if snap.processes.contains_key(pid) {
                line_owner(snap.processes[pid].command, t)
            } else {
                None
            };
            &&& by_dir matches Some(ws) ==> owner_of(pid, snap, t) == Some(
                AttributedView { workspace_id: ws, attribution: AttributionView::Cwd },
            )
            &&& by_dir is None ==> (by_line matches Some(ws) ==> owner_of(pid, snap, t) == Some(
                AttributedView { workspace_id: ws, attribution: AttributionView::Command },
            ))
            &&& by_dir is None && by_line is None ==> owner_of(pid, snap, t) is None
        }),
{
    only_descendants_belong_to_a_pane(pid, snap, t);
    if shell_in(lineage(snap, pid), t.panes) is Some {
        let line = lineage(snap, pid);
        let p = |q: u32| shell_at(t.panes, q) >= 0;
        seqs::lemma_first_where(line, p);
        assert(owner_of(pid, snap, t)->0.attribution is Pane);
    }
}

/// A directory that several workspaces have belongs to the first, and checkouts
/// come before the working directories of panes.
pub proof fn the_first_owner_of_a_directory_keeps_it(t: TopologyView, w: int)
    requires
        0 <= w < t.workspaces.len(),
        t.workspaces[w].checkout_path is Some,
        !is_excluded(normal_form(t.workspaces[w].checkout_path->0), t.excluded_roots),
        forall|h: int|
            0 <= h < w ==> ((#[trigger] t.workspaces[h]).checkout_path matches Some(p)
                ==> normal_form(p) != normal_form(t.workspaces[w].checkout_path->0)),
    ensures
        roots_of(t).contains(
            (normal_form(t.workspaces[w].checkout_path->0), t.workspaces[w].workspace_id),
        ),
        dir_owner(t.workspaces[w].checkout_path->0, t) == Some(t.workspaces[w].workspace_id),
{
    let cands = candidates(t);
    let own = owned_roots(cands, t.excluded_roots);
    let p = t.workspaces[w].checkout_path->0;
    let n = normal_form(p);
    let root = (n, t.workspaces[w].workspace_id);
    let k = lemma_checkout_listed(t.workspaces, w);
    assert(cands[k] == (p, t.workspaces[w].workspace_id));
    assert forall|j: int| 0 <= j < k implies normal_form((#[trigger] cands[j]).0) != n by {
        assert(cands[j] == checkouts(t.workspaces)[j]);
        assert(is_checkout_before(t.workspaces, w, checkouts(t.workspaces)[j].0));
        let h = choose|h: int|
            0 <= h < w && (#[trigger] t.workspaces[h]).checkout_path == Some(
                checkouts(t.workspaces)[j].0,
            );
        assert(t.workspaces[h].checkout_path is Some);
    }
    lemma_first_candidate_owns(cands, t.excluded_roots, k);
    order::sorting_keeps_the_elements(own, deeper_first());
    assert(own.contains(root));
    let roots = roots_of(t);
    assert(roots.contains(root));
    let i = choose|i: int| 0 <= i < roots.len() && roots[i] == root;
    let q = |r: (Seq<char>, Seq<char>)| holds_dir(p)(r.0);
    seqs::lemma_first_where(roots, q);
    assert(lies_under(n, n));
    assert(q(roots[i]));
    let f = first_where(roots, q) as int;
    if f < i {
        order::sorting_gives_an_order(own, deeper_first());
        assert(deeper_first()(roots[f], roots[i]));
        assert(q(roots[f]));
        lemma_roots(t);
        assert(is_rooted(t, roots[f]));
        let d = choose|d: Seq<char>| #[trigger]
            belongs(t, d, roots[f].1) && normal_form(d) == roots[f].0 && !is_excluded(
                normal_form(d),
                t.excluded_roots,
            );
        path::lemma_same_depth(p, d);
        excluded_directories_own_nothing(t);
        assert(roots[f].0 != roots[i].0);
    }
}

} // verus!
