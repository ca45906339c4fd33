//! The popup picker: which rows it lists, what its keys do, and what it says
//! about the outcome.

use vstd::prelude::*;

use crate::assoc::has_key;
use crate::config::{inferred_url, Config};
use crate::daemon::{Reply, Request, Signal};
use crate::json;
use crate::json::{json_of, text_member_of, Json, JsonView};
use crate::number;
use crate::number::decimal_of;
use crate::order;
use crate::order::sorted;
use crate::seqs;
use crate::seqs::first_where;
use crate::sidebar;
use crate::sidebar::glyph_of;
use crate::state::{
    blank, has_service, ids_of, of_workspace, pairs_of, rows_of, unattributed_of, Liveness, Service, ServiceView, State,
    StateView, Unattributed, UnattributedView,
};
use crate::text;
use crate::text::{contains_text, lex_le, lowercased, opt_text, texts};

verus! {

/// One row that can be selected.
#[derive(Debug)]
pub struct Row {
    pub workspace_id: String,
    pub port: u16,
    pub name: String,
    pub url: String,
    pub label: Option<String>,
    pub glyph: &'static str,
    pub liveness: Liveness,
    pub age: String,
    pub pid: Option<u32>,
    pub container: Option<String>,
    /// What no workspace owns can be opened and copied but not ended.
    pub killable: bool,
}

/// A [`Row`] with its texts as characters.
#[verifier::ext_equal]
pub struct RowView {
    pub workspace_id: Seq<char>,
    pub port: u16,
    pub name: Seq<char>,
    pub url: Seq<char>,
    pub label: Option<Seq<char>>,
    pub glyph: Seq<char>,
    pub liveness: Liveness,
    pub age: Seq<char>,
    pub pid: Option<u32>,
    pub container: Option<Seq<char>>,
    pub killable: bool,
}

impl View for Row {
    type V = RowView;

    open spec fn view(&self) -> RowView {
        RowView {
            workspace_id: self.workspace_id@,
            port: self.port,
            name: self.name@,
            url: self.url@,
            label: opt_text(self.label),
            glyph: self.glyph@,
            liveness: self.liveness,
            age: self.age@,
            pid: self.pid,
            container: opt_text(self.container),
            killable: self.killable,
        }
    }
}

/// The rows of a vector, with their texts as characters.
pub open spec fn rows_view(v: Seq<Row>) -> Seq<RowView> {
    v.map_values(|r: Row| r@)
}

/// A line of the list: the title of a group, or a row.
#[derive(Debug, PartialEq, Eq)]
pub enum Line {
    Header(String),
    Row(usize),
}

/// A [`Line`] with its text as characters.
pub enum LineView {
    Header(Seq<char>),
    Row(int),
}

impl View for Line {
    type V = LineView;

    open spec fn view(&self) -> LineView {
        match self {
            Line::Header(t) => LineView::Header(t@),
            Line::Row(i) => LineView::Row(*i as int),
        }
    }
}

/// The lines of a vector, with their texts as characters.
pub open spec fn lines_view(v: Seq<Line>) -> Seq<LineView> {
    v.map_values(|l: Line| l@)
}

/// The picker, but for what it does to the outside.
#[derive(Debug)]
pub struct Picker {
    pub config: Config,
    /// The workspace it was opened in.
    pub workspace: Option<String>,
    /// Whether it lists every workspace.
    pub all: bool,
    pub filter: Option<String>,
    pub selected: usize,
    pub scroll: usize,
    /// The last message, and whether it tells of a fault.
    pub status: Option<(String, bool)>,
    pub kill_confirmed_once: bool,
    /// A row that is ended once that is confirmed.
    pub pending_kill: Option<(usize, Signal)>,
    /// Whether the daemon could be reached when last tried; nothing can be
    /// ended without it.
    pub reachable: bool,
    pub filter_editing: bool,
    pub state: State,
    pub rows: Vec<Row>,
    pub lines: Vec<Line>,
}

/// A [`Picker`] with its texts as characters.
#[verifier::ext_equal]
pub struct PickerView {
    pub config: Config,
    pub workspace: Option<Seq<char>>,
    pub all: bool,
    pub filter: Option<Seq<char>>,
    pub selected: int,
    pub scroll: int,
    pub status: Option<(Seq<char>, bool)>,
    pub kill_confirmed_once: bool,
    pub pending_kill: Option<(usize, Signal)>,
    pub reachable: bool,
    pub filter_editing: bool,
    pub state: StateView,
    pub rows: Seq<RowView>,
    pub lines: Seq<LineView>,
}

/// The text of a message, as characters.
pub open spec fn status_view(o: Option<(String, bool)>) -> Option<(Seq<char>, bool)> {
    match o {
        Some((m, fault)) => Some((m@, fault)),
        None => None,
    }
}

impl View for Picker {
    type V = PickerView;

    open spec fn view(&self) -> PickerView {
        PickerView {
            config: self.config,
            workspace: opt_text(self.workspace),
            all: self.all,
            filter: opt_text(self.filter),
            selected: self.selected as int,
            scroll: self.scroll as int,
            status: status_view(self.status),
            kill_confirmed_once: self.kill_confirmed_once,
            pending_kill: self.pending_kill,
            reachable: self.reachable,
            filter_editing: self.filter_editing,
            state: self.state@,
            rows: rows_view(self.rows@),
            lines: lines_view(self.lines@),
        }
    }
}

// ---------------------------------------------------------------------------
// Rows
// ---------------------------------------------------------------------------

/// How long ago a service was first seen, in the largest unit that fits; empty
/// where that is unknown.
pub open spec fn age_of(now: u64, first_seen: u64) -> Seq<char> {
    if first_seen == 0 || now < first_seen {
        seq![]
    } else {
        let s = (now - first_seen) / 1000;
        if s < 60 {
            decimal_of(s as nat) + "s"@
        } else if s < 3600 {
            decimal_of((s / 60) as nat) + "m"@
        } else if s < 86400 {
            decimal_of((s / 3600) as nat) + "h"@
        } else {
            decimal_of((s / 86400) as nat) + "d"@
        }
    }
}

/// How long ago a service was first seen.
pub fn age(now_ms: u64, first_seen_ms: u64) -> (r: String)
    ensures
        r@ == age_of(now_ms, first_seen_ms),
{
    if first_seen_ms == 0 || now_ms < first_seen_ms {
        return String::new();
    }
    let s: u64 = (now_ms - first_seen_ms) / 1000;
    let (n, unit): (u64, &str) = if s < 60 {
        (s, "s")
    } else if s < 3600 {
        (s / 60, "m")
    } else if s < 86400 {
        (s / 3600, "h")
    } else {
        (s / 86400, "d")
    };
    let mut out = number::decimal(n);
    text::push_text(&mut out, unit);
    out
}

/// The row of a service.
pub open spec fn service_row(s: ServiceView, now: u64) -> RowView {
    RowView {
        workspace_id: s.workspace_id,
        port: s.port,
        name: s.process_name,
        url: s.url,
        label: s.label,
        glyph: glyph_of(s),
        liveness: s.liveness,
        age: age_of(now, s.first_seen_ms),
        pid: s.pid,
        container: s.container,
        killable: s.pid is Some || s.container is Some,
    }
}

/// The row of a listener that no workspace owns.
pub open spec fn stray_row(u: UnattributedView, c: Config) -> RowView {
    RowView {
        workspace_id: seq![],
        port: u.port,
        name: u.process_name,
        url: inferred_url(c, u.port),
        label: None,
        glyph: "○"@,
        liveness: Liveness::Unknown,
        age: seq![],
        pid: u.pid,
        container: u.container,
        killable: false,
    }
}

/// What a row is searched for: the filter in lower case.
pub open spec fn needle_of(filter: Option<Seq<char>>) -> Seq<char> {
    match filter {
        Some(f) => if f.len() == 0 {
            seq![]
        } else {
            lowercased(f)
        },
        None => seq![],
    }
}

/// A row whose texts in lower case are these holds `needle`.
pub open spec fn holds(
    port: u16,
    name: Seq<char>,
    url: Seq<char>,
    label: Option<Seq<char>>,
    ws: Seq<char>,
    needle: Seq<char>,
) -> bool {
    ||| needle.len() == 0
    ||| contains_text(decimal_of(port as nat), needle)
    ||| contains_text(name, needle)
    ||| contains_text(url, needle)
    ||| label matches Some(l) && contains_text(l, needle)
    ||| contains_text(ws, needle)
}

/// The rows that hold `needle`, in any case.
pub open spec fn matching(needle: Seq<char>) -> spec_fn(RowView) -> bool {
    |r: RowView|
        holds(
            r.port,
            lowercased(r.name),
            lowercased(r.url),
            match r.label {
                Some(l) => Some(lowercased(l)),
                None => None,
            },
            lowercased(r.workspace_id),
            needle,
        )
}

/// Whether a row whose texts in lower case are these holds `needle`.
pub fn row_holds(
    port: u16,
    name: &str,
    url: &str,
    label: &Option<String>,
    workspace_id: &str,
    needle: &str,
) -> (r: bool)
    ensures
        r == holds(port, name@, url@, opt_text(*label), workspace_id@, needle@),
{
    if needle.is_empty() || text::contains(number::decimal(port as u64).as_str(), needle)
        || text::contains(name, needle) || text::contains(url, needle) || text::contains(
        workspace_id,
        needle,
    ) {
        return true;
    }
    match label {
        Some(l) => text::contains(l.as_str(), needle),
        None => false,
    }
}

fn row_matches(row: &Row, needle: &str) -> (r: bool)
    ensures
        r == matching(needle@)(row@),
{
    let label = match &row.label {
        Some(l) => Some(text::to_lowercase(l.as_str())),
        None => None,
    };
    row_holds(
        row.port,
        text::to_lowercase(row.name.as_str()).as_str(),
        text::to_lowercase(row.url.as_str()).as_str(),
        &label,
        text::to_lowercase(row.workspace_id.as_str()).as_str(),
        needle,
    )
}

/// The rows of these services that hold `needle`.
pub open spec fn service_rows(services: Seq<ServiceView>, needle: Seq<char>, now: u64) -> Seq<
    RowView,
> {
    services.map_values(|s: ServiceView| service_row(s, now)).filter(matching(needle))
}

/// The rows of these listeners that hold `needle`.
pub open spec fn stray_rows(us: Seq<UnattributedView>, c: Config, needle: Seq<char>) -> Seq<
    RowView,
> {
    us.map_values(|u: UnattributedView| stray_row(u, c)).filter(matching(needle))
}

fn list_services(services: &Vec<Service>, needle: &str, now_ms: u64) -> (r: Vec<Row>)
    ensures
        rows_view(r@) == service_rows(rows_of(services@), needle@, now_ms),
{
    let ghost all = rows_of(services@).map_values(|s: ServiceView| service_row(s, now_ms));
    let ghost p = matching(needle@);
    let mut out: Vec<Row> = Vec::new();
    let mut i: usize = 0;
    proof {
        seqs::lemma_filter_push(all, p, arbitrary());
        assert(all.take(0) =~= seq![]);
        assert(rows_view(out@) =~= seq![]);
    }
    while i < services.len()
        invariant
            i <= services@.len(),
            all == rows_of(services@).map_values(|s: ServiceView| service_row(s, now_ms)),
            p == matching(needle@),
            rows_view(out@) == all.take(i as int).filter(p),
        decreases services.len() - i,
    {
        let s = &services[i];
        let row = Row {
            workspace_id: s.workspace_id.clone(),
            port: s.port,
            name: s.process_name.clone(),
            url: s.url.clone(),
            label: text::copy_opt(&s.label),
            glyph: sidebar::glyph(s),
            liveness: s.liveness,
            age: age(now_ms, s.first_seen_ms),
            pid: s.pid,
            container: text::copy_opt(&s.container),
            killable: s.pid.is_some() || s.container.is_some(),
        };
        proof {
            seqs::lemma_filter_step(all, p, i as int);
            assert(row@ =~= all[i as int]);
        }
        if row_matches(&row, needle) {
            let ghost before = rows_view(out@);
            let ghost v = row@;
            out.push(row);
            assert(rows_view(out@) =~= before.push(v));
        }
        i = i + 1;
    }
    assert(all.take(i as int) =~= all);
    out
}

fn list_strays(us: &Vec<Unattributed>, config: &Config, needle: &str) -> (r: Vec<Row>)
    ensures
        rows_view(r@) == stray_rows(unattributed_of(us@), *config, needle@),
{
    let ghost all = unattributed_of(us@).map_values(|u: UnattributedView| stray_row(u, *config));
    let ghost p = matching(needle@);
    let mut out: Vec<Row> = Vec::new();
    let mut i: usize = 0;
    proof {
        seqs::lemma_filter_push(all, p, arbitrary());
        assert(all.take(0) =~= seq![]);
        assert(rows_view(out@) =~= seq![]);
    }
    while i < us.len()
        invariant
            i <= us@.len(),
            all == unattributed_of(us@).map_values(|u: UnattributedView| stray_row(u, *config)),
            p == matching(needle@),
            rows_view(out@) == all.take(i as int).filter(p),
        decreases us.len() - i,
    {
        let u = &us[i];
        let row = Row {
            workspace_id: String::new(),
            port: u.port,
            name: u.process_name.clone(),
            url: config.url_for(u.port),
            label: None,
            glyph: "○",
            liveness: Liveness::Unknown,
            age: String::new(),
            pid: u.pid,
            container: text::copy_opt(&u.container),
            killable: false,
        };
        proof {
            seqs::lemma_filter_step(all, p, i as int);
            assert(row@ =~= all[i as int]);
        }
        if row_matches(&row, needle) {
            let ghost before = rows_view(out@);
            let ghost v = row@;
            out.push(row);
            assert(rows_view(out@) =~= before.push(v));
        }
        i = i + 1;
    }
    assert(all.take(i as int) =~= all);
    out
}

// ---------------------------------------------------------------------------
// Groups
// ---------------------------------------------------------------------------

/// Rows that stand together, under a title where there are several groups.
#[verifier::ext_equal]
pub struct Section {
    pub title: Option<Seq<char>>,
    pub rows: Seq<RowView>,
}

/// The label of a workspace, empty where there is none.
pub open spec fn label_for(labels: Seq<(Seq<char>, Seq<char>)>, id: Seq<char>) -> Seq<char> {
    let k = first_where(labels, has_key::<Seq<char>, Seq<char>>(id)) as int;
    if k < labels.len() {
        labels[k].1
    } else {
        seq![]
    }
}

/// By label.
pub open spec fn by_label(labels: Seq<(Seq<char>, Seq<char>)>) -> spec_fn(Seq<char>, Seq<char>) -> bool {
    |a: Seq<char>, b: Seq<char>| lex_le(label_for(labels, a), label_for(labels, b))
}

/// The title of a workspace's group.
pub open spec fn title_of(labels: Seq<(Seq<char>, Seq<char>)>, id: Seq<char>) -> Seq<char> {
    label_for(labels, id) + " ("@ + id + ")"@
}

/// The groups of these workspaces that have a row.
pub open spec fn groups_of(ids: Seq<Seq<char>>, st: StateView, needle: Seq<char>, now: u64) -> Seq<
    Section,
>
    decreases ids.len(),
{
    if ids.len() == 0 {
        seq![]
    } else {
        let out = groups_of(ids.drop_last(), st, needle, now);
        let rows = service_rows(st.services.filter(of_workspace(ids.last())), needle, now);
        if rows.len() == 0 {
            out
        } else {
            out.push(
                Section { title: Some(title_of(st.workspace_labels, ids.last())), rows },
            )
        }
    }
}

/// What the picker lists: every workspace by its label and then what none owns,
/// or just the services of one workspace.
pub open spec fn sections_of(p: PickerView, now: u64) -> Seq<Section> {
    let needle = needle_of(p.filter);
    if p.all {
        let groups = groups_of(
            sorted(ids_of(p.state.services), by_label(p.state.workspace_labels)),
            p.state,
            needle,
            now,
        );
        let other = stray_rows(p.state.unattributed, p.config, needle);
        if other.len() == 0 {
            groups
        } else {
            groups.push(Section { title: Some("other"@), rows: other })
        }
    } else {
        let services = match p.workspace {
            Some(ws) => p.state.services.filter(of_workspace(ws)),
            None => p.state.services,
        };
        seq![Section { title: None, rows: service_rows(services, needle, now) }]
    }
}

/// The rows of these groups, one after another.
pub open spec fn section_rows(ss: Seq<Section>) -> Seq<RowView>
    decreases ss.len(),
{
    if ss.len() == 0 {
        seq![]
    } else {
        section_rows(ss.drop_last()) + ss.last().rows
    }
}

/// The lines of a group whose first row has this number.
pub open spec fn lines_of_section(s: Section, base: int) -> Seq<LineView> {
    (match s.title {
        Some(t) => seq![LineView::Header(t)],
        None => seq![],
    }) + Seq::new(s.rows.len(), |k: int| LineView::Row(base + k))
}

/// The lines of these groups, one after another.
pub open spec fn section_lines(ss: Seq<Section>) -> Seq<LineView>
    decreases ss.len(),
{
    if ss.len() == 0 {
        seq![]
    } else {
        section_lines(ss.drop_last()) + lines_of_section(
            ss.last(),
            section_rows(ss.drop_last()).len() as int,
        )
    }
}

/// The picker with its list made anew; the selection stays on the list.
pub open spec fn rebuilt(p: PickerView, now: u64) -> PickerView {
    let rows = section_rows(sections_of(p, now));
    PickerView {
        rows,
        lines: section_lines(sections_of(p, now)),
        selected: if rows.len() == 0 {
            0
        } else if p.selected < rows.len() {
            p.selected
        } else {
            rows.len() - 1
        },
        ..p
    }
}

/// The label of a workspace, empty where there is none.
pub fn label_in(labels: &Vec<(String, String)>, id: &str) -> (r: String)
    ensures
        r@ == label_for(pairs_of(labels@), id@),
{
    let k = seqs::find_where(
        labels,
        |e: &(String, String)| -> (b: bool)
            ensures
                b == (e.0@ == id@)
            { text::same(e.0.as_str(), id) },
        Ghost(|e: (String, String)| e.0@ == id@),
    );
    proof {
        seqs::lemma_first_where_map(
            labels@,
            |e: (String, String)| (e.0@, e.1@),
            |e: (String, String)| e.0@ == id@,
            has_key::<Seq<char>, Seq<char>>(id@),
        );
    }
    if k < labels.len() {
        labels[k].1.clone()
    } else {
        String::new()
    }
}

/// Appends a group to the list.
fn push_section(
    rows: &mut Vec<Row>,
    lines: &mut Vec<Line>,
    title: Option<String>,
    new: Vec<Row>,
    Ghost(ss): Ghost<Seq<Section>>,
)
    requires
        rows_view(old(rows)@) == section_rows(ss),
        lines_view(old(lines)@) == section_lines(ss),
    ensures
        rows_view(final(rows)@) == section_rows(
            ss.push(Section { title: opt_text(title), rows: rows_view(new@) }),
        ),
        lines_view(final(lines)@) == section_lines(
            ss.push(Section { title: opt_text(title), rows: rows_view(new@) }),
        ),
{
    let ghost sec = Section { title: opt_text(title), rows: rows_view(new@) };
    let ghost grown = ss.push(sec);
    let ghost before = rows_view(rows@);
    let ghost lines_before = lines_view(lines@);
    let ghost base = before.len() as int;
    proof {
        assert(grown.drop_last() =~= ss);
        assert(grown.last() == sec);
    }
    let ghost head = match sec.title {
        Some(t) => seq![LineView::Header(t)],
        None => seq![],
    };
    if let Some(t) = title {
        lines.push(Line::Header(t));
    }
    assert(lines_view(lines@) =~= lines_before + head);
    let total: usize = new.len();
    let ghost tail = Seq::new(total as nat, |k: int| LineView::Row(base + k));
    let mut new = new;
    let ghost fresh = rows_view(new@);
    let mut i: usize = 0;
    proof {
        assert(before + fresh.take(0) =~= before);
        assert(lines_before + head + tail.take(0) =~= lines_before + head);
        assert(fresh.skip(0) =~= fresh);
    }
    while i < total
        invariant
            i <= total,
            base == before.len(),
            fresh.len() == total,
            new@.len() == total - i,
            rows_view(new@) == fresh.skip(i as int),
            rows_view(rows@) == before + fresh.take(i as int),
            tail == Seq::new(total as nat, |k: int| LineView::Row(base + k)),
            lines_view(lines@) == lines_before + head + tail.take(i as int),
        decreases total - i,
    {
        let ghost here = rows_view(new@);
        let ghost rows_here = rows_view(rows@);
        let ghost lines_here = lines_view(lines@);
        let row = new.remove(0);
        proof {
            assert(here[0] == row@);
            assert(here[0] == fresh[i as int]);
            assert(rows_view(new@) =~= here.remove(0));
            assert(here.remove(0) =~= fresh.skip(i + 1));
        }
        let n: usize = rows.len();
        assert(rows_here.len() == n);
        lines.push(Line::Row(n));
        rows.push(row);
        proof {
            assert(lines_view(lines@) =~= lines_here.push(tail[i as int]));
            assert(lines_view(lines@) =~= lines_before + head + tail.take(i + 1));
            assert(rows_view(rows@) =~= rows_here.push(fresh[i as int]));
            assert(rows_view(rows@) =~= before + fresh.take(i + 1));
        }
        i = i + 1;
    }
    proof {
        assert(fresh.take(i as int) =~= fresh);
        assert(tail.take(i as int) =~= tail);
        assert(lines_before + head + tail =~= lines_before + lines_of_section(sec, base));
    }
}

/// A key, as far as the picker tells keys apart.
#[derive(Debug, Clone, Copy, PartialEq, Eq, Structural)]
pub enum Key {
    Esc,
    Enter,
    Backspace,
    Up,
    Down,
    Char(char),
    Other,
}

/// What a key asks of the outside.
#[derive(Debug, PartialEq, Eq)]
pub enum Action {
    /// Nothing; the picker stays open.
    Stay,
    Close,
    /// Open this URL in the browser.
    Open(String),
    /// Copy this URL.
    Copy(String),
    /// Send this request to end a service.
    Kill(Kill),
    /// Ask for a scan.
    Rescan,
}

/// A request to end the service of a row.
#[derive(Debug, PartialEq, Eq)]
pub struct Kill {
    pub workspace: String,
    pub port: u16,
    pub pid: Option<u32>,
    pub container: Option<String>,
    pub signal: Signal,
    /// The name that the row shows.
    pub name: String,
}

/// A [`Kill`] with its texts as characters.
#[verifier::ext_equal]
pub struct KillView {
    pub workspace: Seq<char>,
    pub port: u16,
    pub pid: Option<u32>,
    pub container: Option<Seq<char>>,
    pub signal: Signal,
    pub name: Seq<char>,
}

impl View for Kill {
    type V = KillView;

    open spec fn view(&self) -> KillView {
        KillView {
            workspace: self.workspace@,
            port: self.port,
            pid: self.pid,
            container: opt_text(self.container),
            signal: self.signal,
            name: self.name@,
        }
    }
}

/// An [`Action`] with its texts as characters.
pub enum ActionView {
    Stay,
    Close,
    Open(Seq<char>),
    Copy(Seq<char>),
    Kill(KillView),
    Rescan,
}

impl View for Action {
    type V = ActionView;

    open spec fn view(&self) -> ActionView {
        match self {
            Action::Stay => ActionView::Stay,
            Action::Close => ActionView::Close,
            Action::Open(u) => ActionView::Open(u@),
            Action::Copy(u) => ActionView::Copy(u@),
            Action::Kill(k) => ActionView::Kill(k@),
            Action::Rescan => ActionView::Rescan,
        }
    }
}

// ---------------------------------------------------------------------------
// What keys do
// ---------------------------------------------------------------------------

/// The selection one row down or up, as far as the list goes.
pub open spec fn moved(p: PickerView, down: bool) -> PickerView {
    if p.rows.len() == 0 {
        p
    } else if down {
        PickerView {
            selected: if p.selected + 1 < p.rows.len() {
                p.selected + 1
            } else {
                p.rows.len() - 1
            },
            ..p
        }
    } else {
        PickerView {
            selected: if p.selected > 0 {
                p.selected - 1
            } else {
                0
            },
            ..p
        }
    }
}

/// The request to end the service of row `i`, where there is such a row.
pub open spec fn kill_of(p: PickerView, i: int, signal: Signal) -> ActionView {
    if 0 <= i < p.rows.len() {
        let r = p.rows[i];
        ActionView::Kill(
            KillView {
                workspace: r.workspace_id,
                port: r.port,
                pid: r.pid,
                container: r.container,
                signal,
                name: r.name,
            },
        )
    } else {
        ActionView::Stay
    }
}

/// What is about to be ended, in words.
pub open spec fn victim_of(r: RowView) -> Seq<char> {
    match (r.container, r.pid) {
        (Some(c), _) => "container "@ + c,
        (None, Some(pid)) => r.name + " (pid "@ + decimal_of(pid as nat) + ")"@,
        (None, None) => r.name,
    }
}

/// The question whether a row is to be ended.
pub open spec fn question_of(r: RowView, signal: Signal) -> Seq<char> {
    (match signal {
        Signal::Term => "stop"@,
        Signal::Kill => "SIGKILL"@,
    }) + " "@ + victim_of(r) + "? y/n"@
}

/// The picker after a key that asks to end the selected row, and what it does:
/// the key does nothing while the daemon is out of reach, a row that no
/// workspace owns is left alone, and the first time it asks back where that is
/// configured.
pub open spec fn kill_asked(p: PickerView, signal: Signal) -> (PickerView, ActionView) {
    if !p.reachable || p.selected >= p.rows.len() {
        (p, ActionView::Stay)
    } else {
        let r = p.rows[p.selected];
        if !r.killable {
            (
                PickerView {
                    status: Some(("not attributed to a workspace; kill it yourself"@, true)),
                    ..p
                },
                ActionView::Stay,
            )
        } else if p.config.picker.confirm_kill && !p.kill_confirmed_once {
            (
                PickerView {
                    status: Some((question_of(r, signal), true)),
                    pending_kill: Some((p.selected as usize, signal)),
                    ..p
                },
                ActionView::Stay,
            )
        } else {
            (p, kill_of(p, p.selected, signal))
        }
    }
}

/// The picker after a key while it waits for a confirmation.
pub open spec fn confirmed(p: PickerView, key: Key) -> (PickerView, ActionView) {
    let (i, signal) = p.pending_kill->0;
    if key == Key::Char('y') || key == Key::Char('Y') || key == Key::Enter {
        (
            PickerView { pending_kill: None, kill_confirmed_once: true, ..p },
            kill_of(p, i as int, signal),
        )
    } else {
        (
            PickerView { pending_kill: None, status: Some(("kill cancelled"@, false)), ..p },
            ActionView::Stay,
        )
    }
}

/// The picker after a key while the filter is edited.
pub open spec fn edited(p: PickerView, key: Key, ctrl: bool, now: u64) -> (PickerView, ActionView) {
    let text = match p.filter {
        Some(f) => f,
        None => seq![],
    };
    let q = PickerView { filter: Some(text), ..p };
    match key {
        Key::Esc => (
            rebuilt(PickerView { filter: None, filter_editing: false, ..p }, now),
            ActionView::Stay,
        ),
        Key::Enter => (
            PickerView {
                filter: if text.len() == 0 {
                    None
                } else {
                    Some(text)
                },
                filter_editing: false,
                ..p
            },
            ActionView::Stay,
        ),
        Key::Backspace => (
            rebuilt(
                PickerView {
                    filter: Some(
                        if text.len() > 0 {
                            text.drop_last()
                        } else {
                            text
                        },
                    ),
                    ..p
                },
                now,
            ),
            ActionView::Stay,
        ),
        Key::Char(c) => if !ctrl {
            (rebuilt(PickerView { filter: Some(text.push(c)), ..p }, now), ActionView::Stay)
        } else if c == 'u' {
            (rebuilt(PickerView { filter: Some(seq![]), ..p }, now), ActionView::Stay)
        } else if c == 'c' {
            (q, ActionView::Close)
        } else {
            (q, ActionView::Stay)
        },
        Key::Up => (moved(q, false), ActionView::Stay),
        Key::Down => (moved(q, true), ActionView::Stay),
        Key::Other => (q, ActionView::Stay),
    }
}

/// The URL of the selected row.
pub open spec fn selected_url(p: PickerView) -> Option<Seq<char>> {
    if p.selected < p.rows.len() {
        Some(p.rows[p.selected].url)
    } else {
        None
    }
}

/// The picker after a key in its list.
pub open spec fn commanded(p: PickerView, key: Key, ctrl: bool, now: u64) -> (
    PickerView,
    ActionView,
) {
    match key {
        Key::Esc => if p.filter is Some {
            (rebuilt(PickerView { filter: None, ..p }, now), ActionView::Stay)
        } else {
            (p, ActionView::Close)
        },
        Key::Enter => (
            p,
            match selected_url(p) {
                Some(u) => ActionView::Open(u),
                None => ActionView::Stay,
            },
        ),
        Key::Up => (moved(p, false), ActionView::Stay),
        Key::Down => (moved(p, true), ActionView::Stay),
        Key::Char(c) => if c == 'q' || (c == 'c' && ctrl) {
            (p, ActionView::Close)
        } else if c == 'k' || (c == 'p' && ctrl) {
            (moved(p, false), ActionView::Stay)
        } else if c == 'j' || (c == 'n' && ctrl) {
            (moved(p, true), ActionView::Stay)
        } else if c == 'y' {
            (
                p,
                match selected_url(p) {
                    Some(u) => ActionView::Copy(u),
                    None => ActionView::Stay,
                },
            )
        } else if c == 'x' {
            kill_asked(p, Signal::Term)
        } else if c == 'X' {
            kill_asked(p, Signal::Kill)
        } else if c == 'r' {
            (p, ActionView::Rescan)
        } else if c == 'a' {
            (rebuilt(PickerView { all: !p.all, selected: 0, ..p }, now), ActionView::Stay)
        } else if c == '/' {
            (
                PickerView {
                    filter: Some(
                        match p.filter {
                            Some(f) => f,
                            None => seq![],
                        },
                    ),
                    filter_editing: true,
                    ..p
                },
                ActionView::Stay,
            )
        } else {
            (p, ActionView::Stay)
        },
        Key::Backspace => (p, ActionView::Stay),
        Key::Other => (p, ActionView::Stay),
    }
}

/// The picker after a key, and what the key asks of the outside.
pub open spec fn after_key(p: PickerView, key: Key, ctrl: bool, now: u64) -> (
    PickerView,
    ActionView,
) {
    if p.pending_kill is Some {
        confirmed(p, key)
    } else if p.filter_editing {
        edited(p, key, ctrl, now)
    } else {
        commanded(p, key, ctrl, now)
    }
}

/// The selection is on the list, and the lines show rows that there are.
pub open spec fn fits(p: PickerView) -> bool {
    &&& 0 <= p.selected
    &&& p.selected < p.rows.len() || (p.rows.len() == 0 && p.selected == 0)
    &&& forall|k: int|
        0 <= k < p.lines.len() ==> (#[trigger] p.lines[k] matches LineView::Row(i) ==> 0 <= i
            < p.rows.len())
}

proof fn lemma_section_lines(ss: Seq<Section>)
    ensures
        forall|k: int|
            0 <= k < section_lines(ss).len() ==> (
            #[trigger] section_lines(ss)[k] matches LineView::Row(i) ==> 0 <= i < section_rows(
                ss,
            ).len()),
    decreases ss.len(),
{
    if ss.len() > 0 {
        let t = ss.drop_last();
        let s = ss.last();
        let base = section_rows(t).len() as int;
        let front = section_lines(t);
        let back = lines_of_section(s, base);
        lemma_section_lines(t);
        assert forall|k: int| 0 <= k < section_lines(ss).len() implies (
        #[trigger] section_lines(ss)[k] matches LineView::Row(i) ==> 0 <= i < section_rows(
            ss,
        ).len()) by {
            if k < front.len() {
                assert(section_lines(ss)[k] == front[k]);
            } else {
                assert(section_lines(ss)[k] == back[k - front.len()]);
            }
        }
    }
}

/// The lines that show a row.
pub open spec fn shows_row() -> spec_fn(LineView) -> bool {
    |l: LineView| l is Row
}

/// Every row of the list has exactly one line, and they stand in their order.
pub proof fn every_row_has_its_line(ss: Seq<Section>)
    ensures
        section_lines(ss).filter(shows_row()) == Seq::new(
            section_rows(ss).len(),
            |i: int| LineView::Row(i),
        ),
    decreases ss.len(),
{
    let p = shows_row();
    if ss.len() == 0 {
        seqs::lemma_filter_push(section_lines(ss), p, LineView::Row(0));
        assert(section_lines(ss) =~= Seq::<LineView>::empty());
        assert(section_lines(ss).filter(p) =~= Seq::new(
            section_rows(ss).len(),
            |i: int| LineView::Row(i),
        ));
    } else {
        let t = ss.drop_last();
        let s = ss.last();
        let base = section_rows(t).len() as int;
        let front = section_lines(t);
        let head = match s.title {
            Some(x) => seq![LineView::Header(x)],
            None => seq![],
        };
        let tail = Seq::new(s.rows.len(), |k: int| LineView::Row(base + k));
        every_row_has_its_line(t);
        seqs::lemma_filter_add(front, head + tail, p);
        seqs::lemma_filter_add(head, tail, p);
        lemma_all_rows(tail);
        assert(head.filter(p) =~= Seq::<LineView>::empty()) by {
            let none = Seq::<LineView>::empty();
            match s.title {
                Some(x) => {
                    seqs::lemma_filter_push(none, p, LineView::Header(x));
                    assert(head =~= none.push(LineView::Header(x)));
                },
                None => {
                    seqs::lemma_filter_push(none, p, LineView::Row(0));
                    assert(head =~= none);
                },
            }
        }
        assert(section_lines(ss).filter(p) =~= Seq::new(
            section_rows(ss).len(),
            |i: int| LineView::Row(i),
        ));
    }
}

proof fn lemma_all_rows(s: Seq<LineView>)
    requires
        forall|i: int| 0 <= i < s.len() ==> (#[trigger] s[i]) is Row,
    ensures
        s.filter(shows_row()) == s,
    decreases s.len(),
{
    reveal(Seq::filter);
    if s.len() > 0 {
        let t = s.drop_last();
        assert forall|i: int| 0 <= i < t.len() implies (#[trigger] t[i]) is Row by {
            assert(t[i] == s[i]);
        }
        lemma_all_rows(t);
        assert(s[s.len() - 1] is Row);
        assert(t.push(s.last()) =~= s);
    } else {
        assert(s.filter(shows_row()) =~= s);
    }
}

impl Picker {
    /// A picker in this workspace, or for all of them where there is none.
    pub fn new(config: Config, workspace: Option<String>) -> (r: Self)
        ensures
            r@ == (PickerView {
                config,
                workspace: opt_text(workspace),
                all: workspace is None,
                filter: None,
                selected: 0,
                scroll: 0,
                status: None,
                kill_confirmed_once: false,
                pending_kill: None,
                reachable: true,
                filter_editing: false,
                state: blank(),
                rows: seq![],
                lines: seq![],
            }),
            fits(r@),
    {
        let all = workspace.is_none();
        Picker {
            config,
            workspace,
            all,
            filter: None,
            selected: 0,
            scroll: 0,
            status: None,
            kill_confirmed_once: false,
            pending_kill: None,
            reachable: true,
            filter_editing: false,
            state: State::default(),
            rows: Vec::new(),
            lines: Vec::new(),
        }
    }

    /// Takes over a state that was read, where one could be, and makes the list
    /// anew.
    pub fn load(&mut self, state: Option<State>, now_ms: u64)
        ensures
            final(self)@ == rebuilt(
                match state {
                    Some(st) => PickerView { state: st@, ..old(self)@ },
                    None => old(self)@,
                },
                now_ms,
            ),
            fits(final(self)@),
    {
        if let Some(st) = state {
            self.state = st;
        }
        self.rebuild(now_ms);
    }

    /// Makes the list anew from the state and the filter.
    pub fn rebuild(&mut self, now_ms: u64)
        ensures
            final(self)@ == rebuilt(old(self)@, now_ms),
            fits(final(self)@),
    {
        let ghost p = self@;
        let ghost needle = needle_of(p.filter);
        let wanted: String = match &self.filter {
            Some(f) => {
                if f.as_str().is_empty() {
                    String::new()
                } else {
                    text::to_lowercase(f.as_str())
                }
            },
            None => String::new(),
        };
        assert(wanted@ =~= needle);
        let mut rows: Vec<Row> = Vec::new();
        let mut lines: Vec<Line> = Vec::new();
        proof {
            assert(rows_view(rows@) =~= section_rows(seq![]));
            assert(lines_view(lines@) =~= section_lines(seq![]));
        }
        if self.all {
            let ids = self.ordered_ids();
            let ghost order = texts(ids@);
            let ghost mut ss: Seq<Section> = seq![];
            let mut i: usize = 0;
            assert(ss =~= groups_of(order.take(0), p.state, needle, now_ms));
            while i < ids.len()
                invariant
                    i <= ids@.len(),
                    order == texts(ids@),
                    p.state == self.state@,
                    wanted@ == needle,
                    ss == groups_of(order.take(i as int), p.state, needle, now_ms),
                    rows_view(rows@) == section_rows(ss),
                    lines_view(lines@) == section_lines(ss),
                decreases ids.len() - i,
            {
                let id = ids[i].as_str();
                proof {
                    assert(order.take(i + 1).drop_last() =~= order.take(i as int));
                    assert(order.take(i + 1).last() == id@);
                }
                let services = self.state.services_for(id);
                let group = list_services(&services, wanted.as_str(), now_ms);
                assert(rows_view(group@).len() == group@.len());
                if group.len() > 0 {
                    let mut title = label_in(&self.state.workspace_labels, id);
                    text::push_text(&mut title, " (");
                    text::push_text(&mut title, id);
                    text::push_text(&mut title, ")");
                    let ghost sec = Section {
                        title: Some(title@),
                        rows: rows_view(group@),
                    };
                    push_section(&mut rows, &mut lines, Some(title), group, Ghost(ss));
                    proof {
                        ss = ss.push(sec);
                    }
                }
                i = i + 1;
            }
            assert(order.take(i as int) =~= order);
            let other = list_strays(&self.state.unattributed, &self.config, wanted.as_str());
            assert(rows_view(other@).len() == other@.len());
            if other.len() > 0 {
                push_section(&mut rows, &mut lines, Some("other".to_owned()), other, Ghost(ss));
            }
        } else {
            let found: Vec<Row> = match &self.workspace {
                Some(ws) => {
                    let services = self.state.services_for(ws.as_str());
                    list_services(&services, wanted.as_str(), now_ms)
                },
                None => list_services(&self.state.services, wanted.as_str(), now_ms),
            };
            let ghost sec = Section { title: None, rows: rows_view(found@) };
            push_section(&mut rows, &mut lines, None, found, Ghost(Seq::<Section>::empty()));
            assert(Seq::<Section>::empty().push(sec) =~= seq![sec]);
        }
        proof {
            assert(rows_view(rows@) == section_rows(sections_of(p, now_ms)));
            assert(lines_view(lines@) == section_lines(sections_of(p, now_ms)));
            assert(rows_view(rows@).len() == rows@.len());
            lemma_section_lines(sections_of(p, now_ms));
        }
        let n: usize = rows.len();
        self.rows = rows;
        self.lines = lines;
        if n == 0 {
            self.selected = 0;
        } else if self.selected >= n {
            self.selected = n - 1;
        }
    }

    /// The workspaces that have a service, by their labels.
    fn ordered_ids(&self) -> (r: Vec<String>)
        ensures
            texts(r@) == sorted(
                ids_of(self@.state.services),
                by_label(self@.state.workspace_labels),
            ),
    {
        let ids = self.state.workspace_ids();
        let ghost labels = self@.state.workspace_labels;
        let labels_ref = &self.state.workspace_labels;
        proof {
            order::lemma_sorted_map(
                ids@,
                |s: String| s@,
                |a: String, b: String| by_label(labels)(a@, b@),
                by_label(labels),
            );
        }
        order::sort(
            ids,
            |a: &String, b: &String| -> (c: bool)
                ensures
                    c == by_label(labels)(a@, b@)
                {
                    text::text_le(
                        label_in(labels_ref, a.as_str()).as_str(),
                        label_in(labels_ref, b.as_str()).as_str(),
                    )
                },
            Ghost(|a: String, b: String| by_label(labels)(a@, b@)),
        )
    }

    /// Moves the selection one row, as far as the list goes.
    pub fn move_selection(&mut self, down: bool)
        requires
            fits(old(self)@),
        ensures
            final(self)@ == moved(old(self)@, down),
            fits(final(self)@),
    {
        let n: usize = self.rows.len();
        assert(rows_view(self.rows@).len() == n);
        if n == 0 {
            return ;
        }
        if down {
            if self.selected + 1 < n {
                self.selected = self.selected + 1;
            } else {
                self.selected = n - 1;
            }
        } else if self.selected > 0 {
            self.selected = self.selected - 1;
        }
    }

    /// The request to end the service of row `index`.
    fn kill(&self, index: usize, signal: Signal) -> (r: Action)
        ensures
            r@ == kill_of(self@, index as int, signal),
    {
        if index >= self.rows.len() {
            return Action::Stay;
        }
        let row = &self.rows[index];
        assert(rows_view(self.rows@)[index as int] == row@);
        let k = Kill {
            workspace: row.workspace_id.clone(),
            port: row.port,
            pid: row.pid,
            container: text::copy_opt(&row.container),
            signal,
            name: row.name.clone(),
        };
        Action::Kill(k)
    }

    /// Asks to end the selected row.
    fn request_kill(&mut self, signal: Signal) -> (r: Action)
        ensures
            (final(self)@, r@) == kill_asked(old(self)@, signal),
    {
        assert(rows_view(self.rows@).len() == self.rows@.len());
        if !self.reachable || self.selected >= self.rows.len() {
            return Action::Stay;
        }
        let row = &self.rows[self.selected];
        assert(rows_view(self.rows@)[self.selected as int] == row@);
        if !row.killable {
            self.status =
            Some(("not attributed to a workspace; kill it yourself".to_owned(), true));
            return Action::Stay;
        }
        if self.config.picker.confirm_kill && !self.kill_confirmed_once {
            let mut q: String = match signal {
                Signal::Term => "stop".to_owned(),
                Signal::Kill => "SIGKILL".to_owned(),
            };
            text::push_text(&mut q, " ");
            text::push_text(&mut q, victim(row).as_str());
            text::push_text(&mut q, "? y/n");
            self.status = Some((q, true));
            self.pending_kill = Some((self.selected, signal));
            return Action::Stay;
        }
        self.kill(self.selected, signal)
    }

    /// What a key does, and what it asks of the outside.
    pub fn handle_key(&mut self, key: Key, ctrl: bool, now_ms: u64) -> (r: Action)
        requires
            fits(old(self)@),
        ensures
            (final(self)@, r@) == after_key(old(self)@, key, ctrl, now_ms),
            fits(final(self)@),
    {
        if let Some((index, signal)) = self.pending_kill {
            self.pending_kill = None;
            return match key {
                Key::Enter => {
                    self.kill_confirmed_once = true;
                    self.kill(index, signal)
                },
                Key::Char(c) => {
                    if c == 'y' || c == 'Y' {
                        self.kill_confirmed_once = true;
                        self.kill(index, signal)
                    } else {
                        self.status = Some(("kill cancelled".to_owned(), false));
                        Action::Stay
                    }
                },
                _ => {
                    self.status = Some(("kill cancelled".to_owned(), false));
                    Action::Stay
                },
            };
        }
        if self.filter_editing {
            return self.edit_filter(key, ctrl, now_ms);
        }
        match key {
            Key::Esc => {
                if self.filter.is_some() {
                    self.filter = None;
                    self.rebuild(now_ms);
                    Action::Stay
                } else {
                    Action::Close
                }
            },
            Key::Enter => match self.selected_address() {
                Some(u) => Action::Open(u),
                None => Action::Stay,
            },
            Key::Up => {
                self.move_selection(false);
                Action::Stay
            },
            Key::Down => {
                self.move_selection(true);
                Action::Stay
            },
            Key::Char(c) => self.command(c, ctrl, now_ms),
            Key::Backspace => Action::Stay,
            Key::Other => Action::Stay,
        }
    }

    fn command(&mut self, c: char, ctrl: bool, now_ms: u64) -> (r: Action)
        requires
            fits(old(self)@),
        ensures
            (final(self)@, r@) == commanded(old(self)@, Key::Char(c), ctrl, now_ms),
            fits(final(self)@),
    {
        if c == 'q' || (c == 'c' && ctrl) {
            Action::Close
        } else if c == 'k' || (c == 'p' && ctrl) {
            self.move_selection(false);
            Action::Stay
        } else if c == 'j' || (c == 'n' && ctrl) {
            self.move_selection(true);
            Action::Stay
        } else if c == 'y' {
            match self.selected_address() {
                Some(u) => Action::Copy(u),
                None => Action::Stay,
            }
        } else if c == 'x' {
            self.request_kill(Signal::Term)
        } else if c == 'X' {
            self.request_kill(Signal::Kill)
        } else if c == 'r' {
            Action::Rescan
        } else if c == 'a' {
            self.all = !self.all;
            self.selected = 0;
            self.rebuild(now_ms);
            Action::Stay
        } else if c == '/' {
            if self.filter.is_none() {
                self.filter = Some(String::new());
            }
            assert(self@.filter =~= Some(
                match old(self)@.filter {
                    Some(f) => f,
                    None => seq![],
                },
            ));
            self.filter_editing = true;
            Action::Stay
        } else {
            Action::Stay
        }
    }

    fn edit_filter(&mut self, key: Key, ctrl: bool, now_ms: u64) -> (r: Action)
        requires
            fits(old(self)@),
        ensures
            (final(self)@, r@) == edited(old(self)@, key, ctrl, now_ms),
            fits(final(self)@),
    {
        let ghost p = self@;
        let mut filter: String = match &self.filter {
            Some(f) => f.clone(),
            None => String::new(),
        };
        let ghost typed = match p.filter {
            Some(f) => f,
            None => seq![],
        };
        assert(filter@ =~= typed);
        match key {
            Key::Esc => {
                self.filter = None;
                self.filter_editing = false;
                self.rebuild(now_ms);
                Action::Stay
            },
            Key::Enter => {
                self.filter = if filter.as_str().is_empty() {
                    None
                } else {
                    Some(filter)
                };
                self.filter_editing = false;
                Action::Stay
            },
            Key::Backspace => {
                let v = text::chars_of(filter.as_str());
                if v.len() > 0 {
                    filter = text::piece(&v, 0, v.len() - 1);
                    assert(filter@ =~= typed.drop_last());
                }
                self.filter = Some(filter);
                self.rebuild(now_ms);
                Action::Stay
            },
            Key::Char(c) => {
                if !ctrl {
                    filter.push(c);
                    self.filter = Some(filter);
                    self.rebuild(now_ms);
                    Action::Stay
                } else if c == 'u' {
                    self.filter = Some(String::new());
                    assert(self@.filter =~= Some(Seq::<char>::empty()));
                    self.rebuild(now_ms);
                    Action::Stay
                } else {
                    self.filter = Some(filter);
                    if c == 'c' {
                        Action::Close
                    } else {
                        Action::Stay
                    }
                }
            },
            Key::Up => {
                self.filter = Some(filter);
                self.move_selection(false);
                Action::Stay
            },
            Key::Down => {
                self.filter = Some(filter);
                self.move_selection(true);
                Action::Stay
            },
            Key::Other => {
                self.filter = Some(filter);
                Action::Stay
            },
        }
    }

    /// The URL of the selected row.
    fn selected_address(&self) -> (r: Option<String>)
        ensures
            opt_text(r) == selected_url(self@),
    {
        assert(rows_view(self.rows@).len() == self.rows@.len());
        if self.selected < self.rows.len() {
            assert(rows_view(self.rows@)[self.selected as int] == self.rows@[self.selected as int]@);
            Some(self.rows[self.selected].url.clone())
        } else {
            None
        }
    }
}

fn victim(row: &Row) -> (r: String)
    ensures
        r@ == victim_of(row@),
{
    match (&row.container, row.pid) {
        (Some(c), _) => {
            let mut out: String = "container ".to_owned();
            text::push_text(&mut out, c.as_str());
            out
        },
        (None, Some(pid)) => {
            let mut out: String = row.name.clone();
            text::push_text(&mut out, " (pid ");
            text::push_text(&mut out, number::decimal(pid as u64).as_str());
            text::push_text(&mut out, ")");
            out
        },
        (None, None) => row.name.clone(),
    }
}

// ---------------------------------------------------------------------------
// What came of it
// ---------------------------------------------------------------------------

/// The message after a URL was to be opened.
pub open spec fn open_message(url: Seq<char>, error: Option<Seq<char>>) -> (Seq<char>, bool) {
    match error {
        None => ("opened "@ + url, false),
        Some(e) => ("open failed: "@ + e, true),
    }
}

/// The message after a URL was to be copied.
pub open spec fn copy_message(url: Seq<char>, result: Result<Seq<char>, Seq<char>>) -> (
    Seq<char>,
    bool,
) {
    match result {
        Ok(how) => ("copied "@ + url + " ("@ + how + ")"@, false),
        Err(e) => ("copy failed: "@ + e, true),
    }
}

/// What was sent to end a service, in words.
pub open spec fn sent_of(k: KillView) -> Seq<char> {
    if k.container is Some {
        "docker stop/kill"@
    } else {
        match k.signal {
            Signal::Term => "SIGTERM"@,
            Signal::Kill => "SIGKILL"@,
        }
    }
}

/// The message after the daemon was asked to end a service.
pub open spec fn kill_message(k: KillView, reply: Result<Reply, String>) -> (Seq<char>, bool) {
    match reply {
        Ok(r) => if r.ok {
            ("sent "@ + sent_of(k) + " to "@ + k.name, false)
        } else {
            (
                match r.error {
                    Some(e) => e@,
                    None => "kill failed"@,
                },
                true,
            )
        },
        Err(e) => ("daemon unreachable: "@ + e@, true),
    }
}

/// The message after the daemon was asked for a scan.
pub open spec fn rescan_message(reply: Result<Reply, String>) -> (Seq<char>, bool) {
    match reply {
        Ok(r) => if r.ok {
            ("rescanned"@, false)
        } else {
            (
                match r.error {
                    Some(e) => e@,
                    None => seq![],
                },
                true,
            )
        },
        Err(e) => ("daemon unreachable: "@ + e@, true),
    }
}

/// The daemon did what it was asked.
pub open spec fn was_granted(reply: Result<Reply, String>) -> bool {
    reply matches Ok(r) && r.ok
}

impl Kill {
    /// The request for the daemon.
    pub fn request(&self) -> (r: Request)
        ensures
            r matches Request::Kill { workspace, port, pid, container, signal } && workspace@
                == self@.workspace && port == self.port && pid == self.pid && opt_text(container)
                == self@.container && signal == self.signal,
    {
        Request::Kill {
            workspace: self.workspace.clone(),
            port: self.port,
            pid: self.pid,
            container: text::copy_opt(&self.container),
            signal: self.signal,
        }
    }
}

impl Picker {
    /// Takes note of whether the daemon can be reached. What waits for a
    /// confirmation is called off where it cannot.
    pub fn daemon_found(&mut self, reachable: bool)
        ensures
            final(self)@ == (PickerView {
                reachable,
                pending_kill: if reachable {
                    old(self)@.pending_kill
                } else {
                    None
                },
                ..old(self)@
            }),
    {
        self.reachable = reachable;
        if !reachable {
            self.pending_kill = None;
        }
    }

    /// Says what came of opening a URL.
    pub fn opened(&mut self, url: &str, error: Option<String>)
        ensures
            final(self)@ == (PickerView {
                status: Some(open_message(url@, opt_text(error))),
                ..old(self)@
            }),
    {
        self.status =
        Some(
            match error {
                None => {
                    let mut m: String = "opened ".to_owned();
                    text::push_text(&mut m, url);
                    (m, false)
                },
                Some(e) => {
                    let mut m: String = "open failed: ".to_owned();
                    text::push_text(&mut m, e.as_str());
                    (m, true)
                },
            },
        );
    }

    /// Says what came of copying a URL, and by which means.
    pub fn copied(&mut self, url: &str, result: Result<String, String>)
        ensures
            final(self)@ == (PickerView {
                status: Some(
                    copy_message(
                        url@,
                        match result {
                            Ok(how) => Ok(how@),
                            Err(e) => Err(e@),
                        },
                    ),
                ),
                ..old(self)@
            }),
    {
        self.status =
        Some(
            match result {
                Ok(how) => {
                    let mut m: String = "copied ".to_owned();
                    text::push_text(&mut m, url);
                    text::push_text(&mut m, " (");
                    text::push_text(&mut m, how.as_str());
                    text::push_text(&mut m, ")");
                    (m, false)
                },
                Err(e) => {
                    let mut m: String = "copy failed: ".to_owned();
                    text::push_text(&mut m, e.as_str());
                    (m, true)
                },
            },
        );
    }

    /// Says what came of ending a service; whether the state is to be read
    /// again.
    pub fn killed(&mut self, kill: &Kill, reply: Result<Reply, String>) -> (r: bool)
        ensures
            r == was_granted(reply),
            final(self)@ == (PickerView {
                status: Some(kill_message(kill@, reply)),
                reachable: reply is Ok,
                ..old(self)@
            }),
    {
        self.reachable = reply.is_ok();
        match reply {
            Ok(answer) => {
                if answer.ok {
                    let sent: String = if kill.container.is_some() {
                        "docker stop/kill".to_owned()
                    } else {
                        match kill.signal {
                            Signal::Term => "SIGTERM".to_owned(),
                            Signal::Kill => "SIGKILL".to_owned(),
                        }
                    };
                    let mut m: String = "sent ".to_owned();
                    text::push_text(&mut m, sent.as_str());
                    text::push_text(&mut m, " to ");
                    text::push_text(&mut m, kill.name.as_str());
                    self.status = Some((m, false));
                    true
                } else {
                    let m: String = match answer.error {
                        Some(e) => e,
                        None => "kill failed".to_owned(),
                    };
                    self.status = Some((m, true));
                    false
                }
            },
            Err(e) => {
                let mut m: String = "daemon unreachable: ".to_owned();
                text::push_text(&mut m, e.as_str());
                self.status = Some((m, true));
                false
            },
        }
    }

    /// Says what came of asking for a scan; whether the state is to be read
    /// again.
    pub fn rescanned(&mut self, reply: Result<Reply, String>) -> (r: bool)
        ensures
            r == was_granted(reply),
            final(self)@ == (PickerView {
                status: Some(rescan_message(reply)),
                reachable: reply is Ok,
                ..old(self)@
            }),
    {
        self.reachable = reply.is_ok();
        match reply {
            Ok(answer) => {
                if answer.ok {
                    self.status = Some(("rescanned".to_owned(), false));
                    true
                } else {
                    let m: String = match answer.error {
                        Some(e) => e,
                        None => String::new(),
                    };
                    assert(m@ =~= rescan_message(reply).0);
                    self.status = Some((m, true));
                    false
                }
            },
            Err(e) => {
                let mut m: String = "daemon unreachable: ".to_owned();
                text::push_text(&mut m, e.as_str());
                self.status = Some((m, true));
                false
            },
        }
    }
}

/// The workspace that a plugin context names.
pub open spec fn workspace_in(j: JsonView) -> Option<Seq<char>> {
    text_member_of(j, "workspace_id"@)
}

/// The workspace that a plugin context names.
pub fn context_workspace(context: &Json) -> (r: Option<String>)
    ensures
        opt_text(r) == workspace_in(context@),
{
    json::text_member(context, "workspace_id")
}

/// The workspace of the invoking context: the environment's, unless it is
/// empty, else that of the plugin context.
pub fn current_workspace(env: Option<String>, context: Option<String>) -> (r: Option<String>)
    ensures
        opt_text(r) == match (env, context) {
            (Some(ws), c) => if ws@.len() > 0 {
                Some(ws@)
            } else {
                match c {
                    Some(text) => workspace_in(json_of(text@)),
                    None => None,
                }
            },
            (None, Some(text)) => workspace_in(json_of(text@)),
            (None, None) => None,
        },
{
    if let Some(ws) = env {
        if !ws.as_str().is_empty() {
            return Some(ws);
        }
    }
    match context {
        Some(text) => context_workspace(&json::read(text.as_str())),
        None => None,
    }
}

/// A row that no workspace owns is never ended from the list.
pub proof fn what_no_workspace_owns_is_never_ended(p: PickerView, signal: Signal)
    requires
        fits(p),
        p.rows.len() > 0,
        !p.rows[p.selected].killable,
    ensures
        kill_asked(p, signal).1 is Stay,
        kill_asked(p, signal).0.pending_kill == p.pending_kill,
{
}

/// While the daemon is out of reach no key ends a service, nor asks whether to.
pub proof fn nothing_is_ended_without_the_daemon(p: PickerView, key: Key, ctrl: bool, now: u64)
    requires
        fits(p),
        !p.reachable,
        p.pending_kill is None,
    ensures
        !(after_key(p, key, ctrl, now).1 is Kill),
        after_key(p, key, ctrl, now).0.pending_kill is None,
{
}

/// The first time a service is to be ended the picker asks back, and any key but
/// a yes calls it off.
pub proof fn ending_is_confirmed_first(p: PickerView, signal: Signal, key: Key, ctrl: bool, now: u64)
    requires
        fits(p),
        p.pending_kill is None,
        p.config.picker.confirm_kill,
        !p.kill_confirmed_once,
    ensures
        kill_asked(p, signal).1 is Stay,
        kill_asked(p, signal).0.pending_kill is Some && key != Key::Char('y') && key != Key::Char(
            'Y',
        ) && key != Key::Enter ==> after_key(kill_asked(p, signal).0, key, ctrl, now).1 is Stay
            && after_key(kill_asked(p, signal).0, key, ctrl, now).0.pending_kill is None,
{
}

// ---------------------------------------------------------------------------
// What keys are for
// ---------------------------------------------------------------------------

/// This request ends the service of row `r` with `signal`, and no other.
pub open spec fn ends(a: ActionView, r: RowView, signal: Signal) -> bool {
    a matches ActionView::Kill(k) && k.workspace == r.workspace_id && k.port == r.port && k.pid
        == r.pid && k.container == r.container && k.signal == signal && k.name == r.name
}

/// A key that says yes.
pub open spec fn says_yes(key: Key) -> bool {
    key == Key::Enter || key == Key::Char('y') || key == Key::Char('Y')
}

/// What is ended is what was asked for. Where a confirmation is due, `x` or `X`
/// on a row that can be ended ends nothing, and the yes that follows ends that
/// row, with SIGTERM for `x` and SIGKILL for `X`; where none is due the key does
/// so at once.
pub proof fn a_kill_is_the_one_asked_for(
    p: PickerView,
    hard: bool,
    yes: Key,
    c1: bool,
    c2: bool,
    t1: u64,
    t2: u64,
)
    requires
        fits(p),
        p.rows.len() > 0,
        p.rows[p.selected].killable,
        p.reachable,
        p.pending_kill is None,
        !p.filter_editing,
        p.selected <= usize::MAX,
        says_yes(yes),
    ensures
        ({
            let row = p.rows[p.selected];
            let key = if hard {
                Key::Char('X')
            } else {
                Key::Char('x')
            };
            let signal = if hard {
                Signal::Kill
            } else {
                Signal::Term
            };
            let (q, a) = after_key(p, key, c1, t1);
            if p.config.picker.confirm_kill && !p.kill_confirmed_once {
                let (z, b) = after_key(q, yes, c2, t2);
                &&& a is Stay
                &&& ends(b, row, signal)
                &&& z.kill_confirmed_once
                &&& z.pending_kill is None
            } else {
                &&& ends(a, row, signal)
                &&& q == p
            }
        }),
{
}

/// Any other answer than a yes ends nothing, and is not taken for a yes later.
pub proof fn only_a_yes_ends_a_service(p: PickerView, key: Key, ctrl: bool, now: u64)
    requires
        p.pending_kill is Some,
        !says_yes(key),
    ensures
        after_key(p, key, ctrl, now).1 is Stay,
        after_key(p, key, ctrl, now).0.pending_kill is None,
        after_key(p, key, ctrl, now).0.kill_confirmed_once == p.kill_confirmed_once,
        after_key(p, key, ctrl, now).0.status == Some(("kill cancelled"@, false)),
        after_key(p, key, ctrl, now).0.rows == p.rows,
        after_key(p, key, ctrl, now).0.selected == p.selected,
        after_key(p, key, ctrl, now).0.filter == p.filter,
{
}

/// The question names what it asks about: the container where there is one,
/// else the process by its name and number.
pub proof fn the_question_names_the_victim(p: PickerView, hard: bool, ctrl: bool, now: u64)
    requires
        fits(p),
        p.rows.len() > 0,
        p.rows[p.selected].killable,
        p.reachable,
        p.pending_kill is None,
        !p.filter_editing,
        p.config.picker.confirm_kill,
        !p.kill_confirmed_once,
    ensures
        ({
            let row = p.rows[p.selected];
            let key = if hard {
                Key::Char('X')
            } else {
                Key::Char('x')
            };
            let verb = if hard {
                "SIGKILL "@
            } else {
                "stop "@
            };
            after_key(p, key, ctrl, now).0.status matches Some((text, fault)) && fault && match (
                row.container,
                row.pid,
            ) {
                (Some(c), _) => text == verb + "container "@ + c + "? y/n"@,
                (None, Some(pid)) => text == verb + row.name + " (pid "@ + decimal_of(pid as nat)
                    + ")? y/n"@,
                (None, None) => text == verb + row.name + "? y/n"@,
            }
        }),
{
    let row = p.rows[p.selected];
    let signal = if hard {
        Signal::Kill
    } else {
        Signal::Term
    };
    reveal_strlit("stop");
    reveal_strlit("SIGKILL");
    reveal_strlit(" ");
    reveal_strlit("stop ");
    reveal_strlit("SIGKILL ");
    reveal_strlit("? y/n");
    reveal_strlit(")");
    reveal_strlit(")? y/n");
    let q = question_of(row, signal);
    let verb = if hard {
        "SIGKILL "@
    } else {
        "stop "@
    };
    match (row.container, row.pid) {
        (Some(c), _) => {
            assert(q =~= verb + "container "@ + c + "? y/n"@);
        },
        (None, Some(pid)) => {
            assert(q =~= verb + row.name + " (pid "@ + decimal_of(pid as nat) + ")? y/n"@);
        },
        (None, None) => {
            assert(q =~= verb + row.name + "? y/n"@);
        },
    }
}

/// In the list Enter opens the URL of the selected row and `y` copies it, `r`
/// asks for a scan, and Escape without a filter, `q` and Ctrl-C close; none of
/// them changes the list, and on an empty list the first two do nothing.
pub proof fn keys_ask_for_what_they_are_for(p: PickerView, ctrl: bool, now: u64)
    requires
        fits(p),
        p.pending_kill is None,
        !p.filter_editing,
    ensures
        p.rows.len() > 0 ==> after_key(p, Key::Enter, ctrl, now) == (
            p,
            ActionView::Open(p.rows[p.selected].url),
        ),
        p.rows.len() > 0 ==> after_key(p, Key::Char('y'), ctrl, now) == (
            p,
            ActionView::Copy(p.rows[p.selected].url),
        ),
        p.rows.len() == 0 ==> after_key(p, Key::Enter, ctrl, now).1 is Stay,
        p.rows.len() == 0 ==> after_key(p, Key::Char('y'), ctrl, now).1 is Stay,
        after_key(p, Key::Char('r'), ctrl, now) == (p, ActionView::Rescan),
        after_key(p, Key::Char('q'), ctrl, now).1 is Close,
        after_key(p, Key::Char('c'), true, now).1 is Close,
        p.filter is None ==> after_key(p, Key::Esc, ctrl, now).1 is Close,
        p.filter is Some ==> after_key(p, Key::Esc, ctrl, now).1 is Stay && after_key(
            p,
            Key::Esc,
            ctrl,
            now,
        ).0.filter is None,
        after_key(p, Key::Char('a'), ctrl, now).0.all == !p.all,
        after_key(p, Key::Char('a'), ctrl, now).0.selected == 0,
        after_key(p, Key::Char('a'), ctrl, now).0.filter == p.filter,
        after_key(p, Key::Char('/'), ctrl, now).0.filter_editing,
        after_key(p, Key::Char('/'), ctrl, now).0.rows == p.rows,
        p.filter is Some ==> after_key(p, Key::Char('/'), ctrl, now).0.filter == p.filter,
        p.filter is None ==> after_key(p, Key::Char('/'), ctrl, now).0.filter == Some(
            Seq::<char>::empty(),
        ),
{
}

/// The same picker with another row selected.
pub open spec fn selects(p: PickerView, q: PickerView, i: int) -> bool {
    q == (PickerView { selected: i, ..p })
}

/// Down, `j` and Ctrl-N go to the next row, Up, `k` and Ctrl-P to the one before,
/// and neither beyond the ends of the list.
pub proof fn movement_is_by_one_row(p: PickerView, ctrl: bool, now: u64)
    requires
        fits(p),
        p.pending_kill is None,
        !p.filter_editing,
    ensures
        ({
            let below = if p.selected + 1 < p.rows.len() {
                p.selected + 1
            } else {
                p.selected
            };
            let above = if p.selected > 0 {
                p.selected - 1
            } else {
                p.selected
            };
            &&& selects(p, after_key(p, Key::Down, ctrl, now).0, below)
            &&& selects(p, after_key(p, Key::Char('j'), ctrl, now).0, below)
            &&& selects(p, after_key(p, Key::Char('n'), true, now).0, below)
            &&& selects(p, after_key(p, Key::Up, ctrl, now).0, above)
            &&& selects(p, after_key(p, Key::Char('k'), ctrl, now).0, above)
            &&& selects(p, after_key(p, Key::Char('p'), true, now).0, above)
            &&& after_key(p, Key::Down, ctrl, now).1 is Stay
            &&& after_key(p, Key::Up, ctrl, now).1 is Stay
        }),
{
}

/// While the filter is edited, a character goes to its end, Backspace takes the
/// last one away, Ctrl-U all; Enter keeps it unless it is empty, Escape drops
/// it, and both end the editing. Nothing is opened, copied or ended meanwhile.
pub proof fn the_filter_is_what_was_typed(p: PickerView, f: Seq<char>, c: char, now: u64)
    requires
        p.pending_kill is None,
        p.filter_editing,
        p.filter == Some(f),
    ensures
        after_key(p, Key::Char(c), false, now).0.filter == Some(f.push(c)),
        after_key(p, Key::Char(c), false, now).0.filter_editing,
        after_key(p, Key::Char(c), false, now).1 is Stay,
        f.len() > 0 ==> after_key(p, Key::Backspace, false, now).0.filter == Some(f.drop_last()),
        after_key(p, Key::Backspace, false, now).0.filter_editing,
        after_key(p, Key::Char('u'), true, now).0.filter == Some(Seq::<char>::empty()),
        after_key(p, Key::Enter, false, now).0.filter == if f.len() == 0 {
            None
        } else {
            Some(f)
        },
        !after_key(p, Key::Enter, false, now).0.filter_editing,
        after_key(p, Key::Enter, false, now).1 is Stay,
        after_key(p, Key::Esc, false, now).0.filter is None,
        !after_key(p, Key::Esc, false, now).0.filter_editing,
        after_key(p, Key::Esc, false, now).1 is Stay,
        after_key(p, Key::Char('c'), true, now).1 is Close,
{
}

/// A list made anew for what the picker is set to.
pub open spec fn is_fresh(p: PickerView, now: u64) -> bool {
    p.rows == rebuilt(p, now).rows && p.lines == rebuilt(p, now).lines
}

proof fn lemma_rebuilt_is_fresh(p: PickerView, now: u64)
    ensures
        is_fresh(rebuilt(p, now), now),
{
    assert(sections_of(rebuilt(p, now), now) == sections_of(p, now));
}

/// Whatever changes the filter or the choice of workspaces makes the list anew,
/// so that it shows what fits them: every character typed into the filter or
/// taken from it, giving it up, and turning to all workspaces or back.
pub proof fn the_list_follows_the_filter(p: PickerView, c: char, ctrl: bool, now: u64)
    requires
        p.pending_kill is None,
    ensures
        p.filter_editing ==> is_fresh(after_key(p, Key::Char(c), false, now).0, now),
        p.filter_editing ==> is_fresh(after_key(p, Key::Char('u'), true, now).0, now),
        p.filter_editing ==> is_fresh(after_key(p, Key::Backspace, ctrl, now).0, now),
        p.filter_editing ==> is_fresh(after_key(p, Key::Esc, ctrl, now).0, now),
        !p.filter_editing && p.filter is Some ==> is_fresh(
            after_key(p, Key::Esc, ctrl, now).0,
            now,
        ),
        !p.filter_editing ==> is_fresh(after_key(p, Key::Char('a'), ctrl, now).0, now),
{
    let text = match p.filter {
        Some(f) => f,
        None => seq![],
    };
    let shorter = if text.len() > 0 {
        text.drop_last()
    } else {
        text
    };
    lemma_rebuilt_is_fresh(PickerView { filter: Some(text.push(c)), ..p }, now);
    lemma_rebuilt_is_fresh(PickerView { filter: Some(seq![]), ..p }, now);
    lemma_rebuilt_is_fresh(PickerView { filter: Some(shorter), ..p }, now);
    lemma_rebuilt_is_fresh(PickerView { filter: None, filter_editing: false, ..p }, now);
    lemma_rebuilt_is_fresh(PickerView { filter: None, ..p }, now);
    lemma_rebuilt_is_fresh(PickerView { all: !p.all, selected: 0, ..p }, now);
}

// ---------------------------------------------------------------------------
// What is listed
// ---------------------------------------------------------------------------

/// Row `r` is that of service `s`.
pub open spec fn is_row_of(r: RowView, s: ServiceView) -> bool {
    &&& r.workspace_id == s.workspace_id
    &&& r.port == s.port
    &&& r.name == s.process_name
    &&& r.url == s.url
    &&& r.label == s.label
    &&& r.liveness == s.liveness
    &&& r.pid == s.pid
    &&& r.container == s.container
    &&& r.killable == (s.pid is Some || s.container is Some)
}

/// Service `s` is found by `needle`: its port, name, URL, label or workspace id
/// holds it, in whatever case.
pub open spec fn is_found(s: ServiceView, needle: Seq<char>) -> bool {
    ||| needle.len() == 0
    ||| contains_text(decimal_of(s.port as nat), needle)
    ||| contains_text(lowercased(s.process_name), needle)
    ||| contains_text(lowercased(s.url), needle)
    ||| s.label matches Some(l) && contains_text(lowercased(l), needle)
    ||| contains_text(lowercased(s.workspace_id), needle)
}

/// Some row of the list is that of `s`.
pub open spec fn is_listed(rows: Seq<RowView>, s: ServiceView) -> bool {
    exists|k: int| 0 <= k < rows.len() && is_row_of(#[trigger] rows[k], s)
}

proof fn lemma_listed(services: Seq<ServiceView>, needle: Seq<char>, now: u64, i: int)
    requires
        0 <= i < services.len(),
        is_found(services[i], needle),
    ensures
        is_listed(service_rows(services, needle, now), services[i]),
{
    let all = services.map_values(|s: ServiceView| service_row(s, now));
    let rows = service_rows(services, needle, now);
    seqs::lemma_filter_members(all, matching(needle));
    assert(all.contains(all[i]));
    assert(matching(needle)(all[i]));
    assert(rows.contains(all[i]));
    let k = choose|k: int| 0 <= k < rows.len() && rows[k] == all[i];
    assert(is_row_of(rows[k], services[i]));
}

proof fn lemma_listed_from(services: Seq<ServiceView>, needle: Seq<char>, now: u64, k: int) -> (i:
    int)
    requires
        0 <= k < service_rows(services, needle, now).len(),
    ensures
        0 <= i < services.len(),
        is_row_of(service_rows(services, needle, now)[k], services[i]),
        is_found(services[i], needle),
{
    let all = services.map_values(|s: ServiceView| service_row(s, now));
    let rows = service_rows(services, needle, now);
    seqs::lemma_filter_members(all, matching(needle));
    assert(rows.contains(rows[k]));
    let i = choose|i: int| 0 <= i < all.len() && all[i] == rows[k];
    assert(matching(needle)(all[i]));
    i
}

/// In one workspace the picker lists every service of it that the filter finds,
/// and nothing else.
pub proof fn a_workspace_lists_its_services(p: PickerView, ws: Seq<char>, now: u64)
    requires
        !p.all,
        p.workspace == Some(ws),
    ensures
        forall|i: int|
            0 <= i < p.state.services.len() && (#[trigger] p.state.services[i]).workspace_id == ws
                && is_found(p.state.services[i], needle_of(p.filter)) ==> is_listed(
                rebuilt(p, now).rows,
                p.state.services[i],
            ),
        forall|k: int|
            0 <= k < rebuilt(p, now).rows.len() ==> is_from(
                #[trigger] rebuilt(p, now).rows[k],
                p.state.services,
                ws,
                needle_of(p.filter),
            ),
{
    let needle = needle_of(p.filter);
    let mine = p.state.services.filter(of_workspace(ws));
    let rows = service_rows(mine, needle, now);
    let ss = sections_of(p, now);
    assert(ss.drop_last() =~= seq![]);
    assert(section_rows(ss) =~= rows);
    seqs::lemma_filter_members(p.state.services, of_workspace(ws));
    assert forall|i: int|
        0 <= i < p.state.services.len() && (#[trigger] p.state.services[i]).workspace_id == ws
            && is_found(p.state.services[i], needle) implies is_listed(
        rows,
        p.state.services[i],
    ) by {
        let s = p.state.services[i];
        assert(p.state.services.contains(s));
        assert(of_workspace(ws)(s));
        assert(mine.contains(s));
        let j = choose|j: int| 0 <= j < mine.len() && mine[j] == s;
        lemma_listed(mine, needle, now, j);
    }
    assert forall|k: int| 0 <= k < rows.len() implies is_from(
        #[trigger] rows[k],
        p.state.services,
        ws,
        needle,
    ) by {
        let j = lemma_listed_from(mine, needle, now, k);
        assert(mine.contains(mine[j]));
        let i = choose|i: int| 0 <= i < p.state.services.len() && p.state.services[i] == mine[j];
        assert(of_workspace(ws)(mine[j]));
        assert(is_row_of(rows[k], p.state.services[i]));
    }
}

/// Row `r` is that of a service of `ws` that `needle` finds.
pub open spec fn is_from(r: RowView, services: Seq<ServiceView>, ws: Seq<char>, needle: Seq<char>) -> bool {
    exists|i: int|
        0 <= i < services.len() && is_row_of(r, #[trigger] services[i]) && services[i].workspace_id
            == ws && is_found(services[i], needle)
}

proof fn lemma_groups_list(
    ids: Seq<Seq<char>>,
    st: StateView,
    needle: Seq<char>,
    now: u64,
    s: ServiceView,
)
    requires
        ids.contains(s.workspace_id),
        st.services.contains(s),
        is_found(s, needle),
    ensures
        is_listed(section_rows(groups_of(ids, st, needle, now)), s),
    decreases ids.len(),
{
    let front = ids.drop_last();
    let out = groups_of(front, st, needle, now);
    let all = groups_of(ids, st, needle, now);
    let mine = st.services.filter(of_workspace(ids.last()));
    let rows = service_rows(mine, needle, now);
    let i = choose|i: int| 0 <= i < ids.len() && ids[i] == s.workspace_id;
    if rows.len() > 0 {
        assert(all.drop_last() =~= out);
        assert(all.last().rows == rows);
    }
    if ids.last() == s.workspace_id {
        seqs::lemma_filter_members(st.services, of_workspace(ids.last()));
        assert(of_workspace(ids.last())(s));
        assert(mine.contains(s));
        let j = choose|j: int| 0 <= j < mine.len() && mine[j] == s;
        lemma_listed(mine, needle, now, j);
        let k = choose|k: int| 0 <= k < rows.len() && is_row_of(#[trigger] rows[k], s);
        let n = section_rows(out).len();
        assert(section_rows(all)[n + k] == rows[k]);
    } else {
        assert(front[i] == s.workspace_id);
        lemma_groups_list(front, st, needle, now, s);
        let k = choose|k: int|
            0 <= k < section_rows(out).len() && is_row_of(#[trigger] section_rows(out)[k], s);
        assert(section_rows(all)[k] == section_rows(out)[k]);
    }
}

/// Row `r` is that of a listener that no workspace owns; it can be opened but
/// never ended.
pub open spec fn is_row_of_stray(r: RowView, u: UnattributedView, c: Config) -> bool {
    &&& r.workspace_id.len() == 0
    &&& r.port == u.port
    &&& r.url == inferred_url(c, u.port)
    &&& r.glyph == "○"@
    &&& r.name == u.process_name
    &&& r.pid == u.pid
    &&& r.container == u.container
    &&& r.label is None
    &&& !r.killable
}

/// The list of all workspaces shows every service that the filter finds,
/// whichever workspace it belongs to.
pub proof fn all_workspaces_are_listed(p: PickerView, now: u64, i: int)
    requires
        p.all,
        0 <= i < p.state.services.len(),
        is_found(p.state.services[i], needle_of(p.filter)),
    ensures
        is_listed(rebuilt(p, now).rows, p.state.services[i]),
{
    let needle = needle_of(p.filter);
    let st = p.state;
    let s = st.services[i];
    let ids = sorted(ids_of(st.services), by_label(st.workspace_labels));
    let groups = groups_of(ids, st, needle, now);
    let other = stray_rows(st.unattributed, p.config, needle);
    order::sorting_keeps_the_elements(ids_of(st.services), by_label(st.workspace_labels));
    crate::state::lemma_ids(st.services);
    assert(has_service(st.services, s.workspace_id));
    assert(ids_of(st.services).contains(s.workspace_id));
    assert(ids.contains(s.workspace_id));
    assert(st.services.contains(s));
    lemma_groups_list(ids, st, needle, now, s);
    let j = choose|j: int|
        0 <= j < section_rows(groups).len() && is_row_of(#[trigger] section_rows(groups)[j], s);
    let ss = sections_of(p, now);
    if other.len() > 0 {
        assert(ss.drop_last() =~= groups);
        assert(section_rows(ss)[j] == section_rows(groups)[j]);
    }
    assert(is_row_of(rebuilt(p, now).rows[j], s));
}

/// What no workspace owns stands at the end of the list of all workspaces, in
/// its order, and none of it can be ended.
pub proof fn strays_are_listed_last(p: PickerView, now: u64)
    requires
        p.all,
        needle_of(p.filter).len() == 0,
    ensures
        rebuilt(p, now).rows.len() >= p.state.unattributed.len(),
        forall|k: int|
            0 <= k < p.state.unattributed.len() ==> is_row_of_stray(
                rebuilt(p, now).rows[rebuilt(p, now).rows.len() - p.state.unattributed.len() + k],
                #[trigger] p.state.unattributed[k],
                p.config,
            ),
{
    let needle = needle_of(p.filter);
    let us = p.state.unattributed;
    let all = us.map_values(|u: UnattributedView| stray_row(u, p.config));
    let other = stray_rows(us, p.config, needle);
    assert forall|k: int| 0 <= k < all.len() implies matching(needle)(#[trigger] all[k]) by {}
    lemma_all_match(all, needle);
    assert(other == all);
    let ss = sections_of(p, now);
    if other.len() > 0 {
        assert(ss.last().rows == other);
        let n = section_rows(ss.drop_last()).len();
        assert forall|k: int| 0 <= k < us.len() implies is_row_of_stray(
            section_rows(ss)[section_rows(ss).len() - us.len() + k],
            #[trigger] us[k],
            p.config,
        ) by {
            assert(section_rows(ss)[n + k] == other[k]);
        }
    }
}

proof fn lemma_all_match(rows: Seq<RowView>, needle: Seq<char>)
    requires
        forall|k: int| 0 <= k < rows.len() ==> matching(needle)(#[trigger] rows[k]),
    ensures
        rows.filter(matching(needle)) == rows,
    decreases rows.len(),
{
    reveal(Seq::filter);
    if rows.len() > 0 {
        let front = rows.drop_last();
        assert forall|k: int| 0 <= k < front.len() implies matching(needle)(
            #[trigger] front[k],
        ) by {
            assert(front[k] == rows[k]);
        }
        lemma_all_match(front, needle);
        assert(matching(needle)(rows[rows.len() - 1]));
        assert(front.push(rows.last()) =~= rows);
    } else {
        assert(rows.filter(matching(needle)) =~= rows);
    }
}

/// Without a filter the list of a workspace has its services in their order.
pub proof fn a_list_keeps_the_order(p: PickerView, now: u64, i: int)
    requires
        !p.all,
        p.filter is None,
        p.workspace is None,
        0 <= i < p.state.services.len(),
    ensures
        rebuilt(p, now).rows.len() == p.state.services.len(),
        is_row_of(rebuilt(p, now).rows[i], p.state.services[i]),
        rebuilt(p, now).rows[i].glyph == glyph_of(p.state.services[i]),
        rebuilt(p, now).rows[i].age == age_of(now, p.state.services[i].first_seen_ms),
{
    let all = p.state.services.map_values(|s: ServiceView| service_row(s, now));
    let needle = needle_of(p.filter);
    assert forall|k: int| 0 <= k < all.len() implies matching(needle)(#[trigger] all[k]) by {}
    lemma_all_match(all, needle);
    let ss = sections_of(p, now);
    assert(ss.drop_last() =~= seq![]);
    assert(section_rows(ss) =~= all);
}

/// An age is what has passed since, in whole seconds below a minute, minutes
/// below an hour, hours below a day, and days.
pub proof fn an_age_is_in_the_largest_unit(n: u64, first: u64, now: u64)
    requires
        first > 0,
        now >= first,
    ensures
        n < 60 && n * 1000 <= now - first < (n + 1) * 1000 ==> age_of(now, first) == decimal_of(
            n as nat,
        ) + "s"@,
        1 <= n < 60 && n * 60_000 <= now - first < (n + 1) * 60_000 ==> age_of(now, first)
            == decimal_of(n as nat) + "m"@,
        1 <= n < 24 && n * 3_600_000 <= now - first < (n + 1) * 3_600_000 ==> age_of(now, first)
            == decimal_of(n as nat) + "h"@,
        1 <= n && n * 86_400_000 <= now - first < (n + 1) * 86_400_000 ==> age_of(now, first)
            == decimal_of(n as nat) + "d"@,
        age_of(now, 0).len() == 0,
{
}

/// What came of opening or copying a URL is told with the URL, or with what went
/// wrong.
pub proof fn messages_tell_what_came_of_a_url(url: Seq<char>, how: Seq<char>)
    ensures
        open_message(url, None) == ("opened "@ + url, false),
        open_message(url, Some(how)).1,
        text::contains_text(open_message(url, Some(how)).0, how),
        !copy_message(url, Ok(how)).1,
        text::contains_text(copy_message(url, Ok(how)).0, url),
        text::contains_text(copy_message(url, Ok(how)).0, how),
        copy_message(url, Err(how)).1,
        text::contains_text(copy_message(url, Err(how)).0, how),
{
    text::lemma_contains_middle("open failed: "@ + how, "open failed: "@, how, seq![]);
    text::lemma_contains_middle("copy failed: "@ + how, "copy failed: "@, how, seq![]);
    let copied = "copied "@ + url + " ("@ + how + ")"@;
    text::lemma_contains_middle(copied, "copied "@, url, " ("@ + how + ")"@);
    text::lemma_contains_middle(copied, "copied "@ + url + " ("@, how, ")"@);
}

/// What came of a request to the daemon is told: what was sent to whom, or the
/// daemon's own error, or that it could not be reached.
pub proof fn messages_tell_what_the_daemon_did(k: KillView, reply: Reply, fault: String)
    ensures
        kill_message(k, Ok(reply)).1 == !reply.ok,
        reply.ok && k.container is None && k.signal == Signal::Term ==> kill_message(
            k,
            Ok(reply),
        ).0 == "sent SIGTERM to "@ + k.name,
        reply.ok && k.container is None && k.signal == Signal::Kill ==> kill_message(
            k,
            Ok(reply),
        ).0 == "sent SIGKILL to "@ + k.name,
        !reply.ok && reply.error is Some ==> kill_message(k, Ok(reply)).0 == reply.error->0@,
        kill_message(k, Err(fault)).1,
        text::contains_text(kill_message(k, Err(fault)).0, fault@),
        rescan_message(Ok(reply)).1 == !reply.ok,
        !reply.ok && reply.error is Some ==> rescan_message(Ok(reply)).0 == reply.error->0@,
        was_granted(Ok(reply)) == reply.ok,
        !was_granted(Err(fault)),
{
    let gone = "daemon unreachable: "@;
    text::lemma_contains_middle(gone + fault@, gone, fault@, seq![]);
    assert("sent "@ + "SIGTERM"@ + " to "@ =~= "sent SIGTERM to "@) by {
        reveal_strlit("sent ");
        reveal_strlit(" to ");
        reveal_strlit("SIGTERM");
        reveal_strlit("sent SIGTERM to ");
    }
    assert("sent "@ + "SIGKILL"@ + " to "@ =~= "sent SIGKILL to "@) by {
        reveal_strlit("sent ");
        reveal_strlit(" to ");
        reveal_strlit("SIGKILL");
        reveal_strlit("sent SIGKILL to ");
    }
}

/// The filter finds in any case: a service is listed where its name, URL or label
/// in lower case holds what was typed in lower case.
pub proof fn a_filter_finds_in_any_case(p: PickerView, f: Seq<char>, now: u64, i: int)
    requires
        p.all,
        p.filter == Some(f),
        f.len() > 0,
        0 <= i < p.state.services.len(),
        contains_text(lowercased(p.state.services[i].process_name), lowercased(f))
            || contains_text(lowercased(p.state.services[i].url), lowercased(f)) || (
        p.state.services[i].label matches Some(l) && contains_text(lowercased(l), lowercased(f)))
            || contains_text(lowercased(p.state.services[i].workspace_id), lowercased(f))
            || contains_text(decimal_of(p.state.services[i].port as nat), lowercased(f)),
    ensures
        is_listed(rebuilt(p, now).rows, p.state.services[i]),
{
    assert(is_found(p.state.services[i], needle_of(p.filter)));
    all_workspaces_are_listed(p, now, i);
}

/// A list made anew keeps the selection where the list is long enough, and else
/// has it on the last row.
pub proof fn the_selection_stays(p: PickerView, now: u64)
    ensures
        0 <= p.selected < rebuilt(p, now).rows.len() ==> rebuilt(p, now).selected == p.selected,
        p.selected >= rebuilt(p, now).rows.len() > 0 ==> rebuilt(p, now).selected == rebuilt(
            p,
            now,
        ).rows.len() - 1,
        rebuilt(p, now).filter == p.filter,
        rebuilt(p, now).all == p.all,
        rebuilt(p, now).status == p.status,
{
}

/// The invoking context names its workspace by `workspace_id`.
pub proof fn the_context_names_the_workspace(
    m: Seq<(Seq<char>, Seq<char>)>,
    k: int,
    ws: Seq<char>,
)
    requires
        0 <= k < m.len(),
        m[k].0 == "workspace_id"@,
        forall|j: int| 0 <= j < k ==> (#[trigger] m[j]).0 != "workspace_id"@,
        json_of(m[k].1) == JsonView::Text(ws),
    ensures
        workspace_in(JsonView::Object(m)) == Some(ws),
{
    json::a_member_is_found_by_its_key(m, "workspace_id"@, k, ws);
}

/// Rows of the groups of the first `n` of `ids`.
pub open spec fn rows_before(
    ids: Seq<Seq<char>>,
    n: int,
    st: StateView,
    needle: Seq<char>,
    now: u64,
) -> Seq<RowView> {
    section_rows(groups_of(ids.take(n), st, needle, now))
}

proof fn lemma_group_step(
    ids: Seq<Seq<char>>,
    n: int,
    st: StateView,
    needle: Seq<char>,
    now: u64,
)
    requires
        0 <= n < ids.len(),
    ensures
        rows_before(ids, n + 1, st, needle, now) == rows_before(ids, n, st, needle, now)
            + service_rows(st.services.filter(of_workspace(ids[n])), needle, now),
{
    let part = ids.take(n + 1);
    assert(part.drop_last() =~= ids.take(n));
    assert(part.last() == ids[n]);
    let out = groups_of(ids.take(n), st, needle, now);
    let rows = service_rows(st.services.filter(of_workspace(ids[n])), needle, now);
    if rows.len() > 0 {
        assert(groups_of(part, st, needle, now).drop_last() =~= out);
    } else {
        assert(section_rows(out) + rows =~= section_rows(out));
    }
}

proof fn lemma_rows_before_grow(
    ids: Seq<Seq<char>>,
    m: int,
    n: int,
    st: StateView,
    needle: Seq<char>,
    now: u64,
)
    requires
        0 <= m <= n <= ids.len(),
    ensures
        rows_before(ids, m, st, needle, now).len() <= rows_before(ids, n, st, needle, now).len(),
        forall|k: int|
            0 <= k < rows_before(ids, m, st, needle, now).len() ==> #[trigger] rows_before(
                ids,
                n,
                st,
                needle,
                now,
            )[k] == rows_before(ids, m, st, needle, now)[k],
    decreases n - m,
{
    if m < n {
        lemma_rows_before_grow(ids, m, n - 1, st, needle, now);
        lemma_group_step(ids, n - 1, st, needle, now);
    }
}

proof fn lemma_row_in_group(
    ids: Seq<Seq<char>>,
    n: int,
    st: StateView,
    needle: Seq<char>,
    now: u64,
    i: int,
) -> (k: int)
    requires
        0 <= n < ids.len(),
        0 <= i < st.services.len(),
        st.services[i].workspace_id == ids[n],
        is_found(st.services[i], needle),
    ensures
        rows_before(ids, n, st, needle, now).len() <= k < rows_before(
            ids,
            n + 1,
            st,
            needle,
            now,
        ).len(),
        is_row_of(rows_before(ids, n + 1, st, needle, now)[k], st.services[i]),
{
    let s = st.services[i];
    let mine = st.services.filter(of_workspace(ids[n]));
    lemma_group_step(ids, n, st, needle, now);
    seqs::lemma_filter_members(st.services, of_workspace(ids[n]));
    assert(st.services.contains(s));
    assert(of_workspace(ids[n])(s));
    assert(mine.contains(s));
    let j = choose|j: int| 0 <= j < mine.len() && mine[j] == s;
    lemma_listed(mine, needle, now, j);
    let rows = service_rows(mine, needle, now);
    let x = choose|x: int| 0 <= x < rows.len() && is_row_of(#[trigger] rows[x], s);
    rows_before(ids, n, st, needle, now).len() as int + x
}

proof fn lemma_by_label_total(labels: Seq<(Seq<char>, Seq<char>)>)
    ensures
        order::total_order(by_label(labels)),
{
    let le = by_label(labels);
    assert forall|a: Seq<char>, b: Seq<char>| #[trigger] le(a, b) || le(b, a) by {
        text::lemma_lex_total(label_for(labels, a), label_for(labels, b));
    }
    assert forall|a: Seq<char>, b: Seq<char>, c: Seq<char>| #[trigger]
        le(a, b) && #[trigger] le(b, c) implies le(a, c) by {
        text::lemma_lex_transitive(
            label_for(labels, a),
            label_for(labels, b),
            label_for(labels, c),
        );
    }
}

/// Among all workspaces those whose labels come first in the alphabet are listed
/// first, with all that they have.
pub proof fn workspaces_are_listed_by_label(p: PickerView, now: u64, i: int, j: int)
    requires
        p.all,
        0 <= i < p.state.services.len(),
        0 <= j < p.state.services.len(),
        is_found(p.state.services[i], needle_of(p.filter)),
        is_found(p.state.services[j], needle_of(p.filter)),
        !lex_le(
            label_for(p.state.workspace_labels, p.state.services[j].workspace_id),
            label_for(p.state.workspace_labels, p.state.services[i].workspace_id),
        ),
    ensures
        exists|x: int, y: int|
            0 <= x < y < rebuilt(p, now).rows.len() && is_row_of(
                #[trigger] rebuilt(p, now).rows[x],
                p.state.services[i],
            ) && is_row_of(#[trigger] rebuilt(p, now).rows[y], p.state.services[j]),
{
    let needle = needle_of(p.filter);
    let st = p.state;
    let ids = sorted(ids_of(st.services), by_label(st.workspace_labels));
    let (m, n) = lemma_ids_by_label(st, i, j);
    let x = lemma_row_in_group(ids, m, st, needle, now, i);
    let y = lemma_row_in_group(ids, n, st, needle, now, j);
    lemma_rows_before_grow(ids, m + 1, n, st, needle, now);
    lemma_group_rows_shown(p, now, m + 1, x);
    lemma_group_rows_shown(p, now, n + 1, y);
    let rows = rebuilt(p, now).rows;
    assert(is_row_of(rows[x], st.services[i]));
    assert(is_row_of(rows[y], st.services[j]));
}

proof fn lemma_ids_by_label(st: StateView, i: int, j: int) -> (r: (int, int))
    requires
        0 <= i < st.services.len(),
        0 <= j < st.services.len(),
        !lex_le(
            label_for(st.workspace_labels, st.services[j].workspace_id),
            label_for(st.workspace_labels, st.services[i].workspace_id),
        ),
    ensures
        ({
            let ids = sorted(ids_of(st.services), by_label(st.workspace_labels));
            &&& 0 <= r.0 < r.1 < ids.len()
            &&& ids[r.0] == st.services[i].workspace_id
            &&& ids[r.1] == st.services[j].workspace_id
        }),
{
    let le = by_label(st.workspace_labels);
    let ids = sorted(ids_of(st.services), le);
    let a = st.services[i].workspace_id;
    let b = st.services[j].workspace_id;
    lemma_by_label_total(st.workspace_labels);
    order::sorting_gives_an_order(ids_of(st.services), le);
    order::sorting_keeps_the_elements(ids_of(st.services), le);
    crate::state::lemma_ids(st.services);
    assert(has_service(st.services, a) && has_service(st.services, b));
    assert(ids_of(st.services).contains(a) && ids_of(st.services).contains(b));
    assert(ids.contains(a) && ids.contains(b));
    let m = choose|m: int| 0 <= m < ids.len() && ids[m] == a;
    let n = choose|n: int| 0 <= n < ids.len() && ids[n] == b;
    if n < m {
        assert(le(ids[n], ids[m]));
    } else if n == m {
        text::lemma_lex_total(label_for(st.workspace_labels, a), label_for(st.workspace_labels, a));
    }
    (m, n)
}

proof fn lemma_group_rows_shown(p: PickerView, now: u64, n: int, k: int)
    requires
        p.all,
        0 <= n <= sorted(ids_of(p.state.services), by_label(p.state.workspace_labels)).len(),
        0 <= k < rows_before(
            sorted(ids_of(p.state.services), by_label(p.state.workspace_labels)),
            n,
            p.state,
            needle_of(p.filter),
            now,
        ).len(),
    ensures
        k < rebuilt(p, now).rows.len(),
        rebuilt(p, now).rows[k] == rows_before(
            sorted(ids_of(p.state.services), by_label(p.state.workspace_labels)),
            n,
            p.state,
            needle_of(p.filter),
            now,
        )[k],
{
    let needle = needle_of(p.filter);
    let st = p.state;
    let ids = sorted(ids_of(st.services), by_label(st.workspace_labels));
    let groups = groups_of(ids, st, needle, now);
    let other = stray_rows(st.unattributed, p.config, needle);
    lemma_rows_before_grow(ids, n, ids.len() as int, st, needle, now);
    assert(ids.take(ids.len() as int) =~= ids);
    let ss = sections_of(p, now);
    if other.len() > 0 {
        assert(ss.drop_last() =~= groups);
        assert(section_rows(ss) == section_rows(groups) + other);
    }
}

proof fn lemma_group_titled(
    ids: Seq<Seq<char>>,
    st: StateView,
    needle: Seq<char>,
    now: u64,
    i: int,
)
    requires
        0 <= i < st.services.len(),
        ids.contains(st.services[i].workspace_id),
        is_found(st.services[i], needle),
    ensures
        section_lines(groups_of(ids, st, needle, now)).contains(
            LineView::Header(title_of(st.workspace_labels, st.services[i].workspace_id)),
        ),
    decreases ids.len(),
{
    let s = st.services[i];
    let front = ids.drop_last();
    let out = groups_of(front, st, needle, now);
    let all = groups_of(ids, st, needle, now);
    let mine = st.services.filter(of_workspace(ids.last()));
    let rows = service_rows(mine, needle, now);
    let h = LineView::Header(title_of(st.workspace_labels, s.workspace_id));
    if rows.len() > 0 {
        assert(all.drop_last() =~= out);
    }
    if ids.last() == s.workspace_id {
        seqs::lemma_filter_members(st.services, of_workspace(ids.last()));
        assert(st.services.contains(s));
        assert(of_workspace(ids.last())(s));
        assert(mine.contains(s));
        let j = choose|j: int| 0 <= j < mine.len() && mine[j] == s;
        lemma_listed(mine, needle, now, j);
        let x = choose|x: int| 0 <= x < rows.len() && is_row_of(#[trigger] rows[x], s);
        assert(rows.len() > 0);
        let n = section_lines(out).len();
        assert(section_lines(all)[n as int] == h);
    } else {
        let k = choose|k: int| 0 <= k < ids.len() && ids[k] == s.workspace_id;
        assert(front[k] == s.workspace_id);
        lemma_group_titled(front, st, needle, now, i);
        let x = choose|x: int| 0 <= x < section_lines(out).len() && section_lines(out)[x] == h;
        assert(section_lines(all)[x] == h);
    }
}

/// Each workspace with something listed is titled by its label and its id, and
/// what none owns as other; the list of one workspace has no title.
pub proof fn groups_are_titled(p: PickerView, now: u64, i: int, k: int)
    requires
        0 <= i < p.state.services.len(),
        is_found(p.state.services[i], needle_of(p.filter)),
        0 <= k < p.state.workspace_labels.len(),
        p.state.workspace_labels[k].0 == p.state.services[i].workspace_id,
        forall|j: int|
            0 <= j < k ==> (#[trigger] p.state.workspace_labels[j]).0
                != p.state.services[i].workspace_id,
    ensures
        p.all ==> rebuilt(p, now).lines.contains(
            LineView::Header(
                p.state.workspace_labels[k].1 + " ("@ + p.state.services[i].workspace_id + ")"@,
            ),
        ),
        p.all && needle_of(p.filter).len() == 0 && p.state.unattributed.len() > 0 ==> rebuilt(
            p,
            now,
        ).lines.contains(LineView::Header("other"@)),
        !p.all ==> forall|x: int|
            0 <= x < rebuilt(p, now).lines.len() ==> (#[trigger] rebuilt(p, now).lines[x]) is Row,
{
    let needle = needle_of(p.filter);
    let st = p.state;
    let ws = st.services[i].workspace_id;
    let labels = st.workspace_labels;
    let ss = sections_of(p, now);
    seqs::lemma_first_where_unique(labels, has_key::<Seq<char>, Seq<char>>(ws), k);
    if p.all {
        let ids = sorted(ids_of(st.services), by_label(labels));
        let groups = groups_of(ids, st, needle, now);
        let other = stray_rows(st.unattributed, p.config, needle);
        order::sorting_keeps_the_elements(ids_of(st.services), by_label(labels));
        crate::state::lemma_ids(st.services);
        assert(has_service(st.services, ws));
        assert(ids_of(st.services).contains(ws));
        assert(ids.contains(ws));
        lemma_group_titled(ids, st, needle, now, i);
        let h = LineView::Header(title_of(labels, ws));
        let x = choose|x: int|
            0 <= x < section_lines(groups).len() && section_lines(groups)[x] == h;
        if other.len() > 0 {
            assert(ss.drop_last() =~= groups);
            assert(section_lines(ss)[x] == h);
            let n = section_lines(groups).len() as int;
            assert(section_lines(ss)[n] == LineView::Header("other"@));
        }
        assert(rebuilt(p, now).lines[x] == h);
        if needle.len() == 0 && st.unattributed.len() > 0 {
            let all = st.unattributed.map_values(|u: UnattributedView| stray_row(u, p.config));
            assert forall|y: int| 0 <= y < all.len() implies matching(needle)(
                #[trigger] all[y],
            ) by {}
            lemma_all_match(all, needle);
            assert(other.len() > 0);
        }
    } else {
        assert(ss.drop_last() =~= seq![]);
        assert(section_lines(ss.drop_last()) =~= seq![]);
    }
}

} // verus!
