//! Sidebar rows: what each `svc_N` token shows, which tokens to set and clear,
//! and the managed `[ui.sidebar.spaces]` block of the configuration file.

use vstd::prelude::*;

use crate::assoc;
use crate::assoc::{as_map, distinct, has_key, keys_differ};
use crate::number;
use crate::number::decimal_of;
use crate::order;
use crate::order::sorted;
use crate::seqs;
use crate::seqs::first_where;
use crate::state::{Liveness, Service, ServiceView, Source};
use crate::text;
use crate::text::{contains_text, is_space, lines_of, spaces, tail_run, texts, trimmed};

verus! {

/// Who reports the tokens.
pub const SOURCE: &'static str = "herdr-services";

/// First line of the managed block.
pub const BLOCK_START: &'static str = "# herdr-services:start";

/// Last line of the managed block.
pub const BLOCK_END: &'static str = "# herdr-services:end";

/// The table that the managed block defines.
pub const SPACES_TABLE: &'static str = "[ui.sidebar.spaces]";

/// Longest value of a token, in characters.
pub const TOKEN_VALUE_MAX: usize = 80;

// ---------------------------------------------------------------------------
// Rows
// ---------------------------------------------------------------------------

/// The liveness glyph of a service: up, down with a listener, or neither.
pub open spec fn glyph_of(s: ServiceView) -> Seq<char> {
    if s.liveness == Liveness::Up {
        "●"@
    } else if s.liveness == Liveness::Down && (s.pid is Some || s.container is Some) {
        "◌"@
    } else {
        "○"@
    }
}

/// The liveness glyph of a service.
pub fn glyph(service: &Service) -> (r: &'static str)
    ensures
        r@ == glyph_of(service@),
{
    let present = service.pid.is_some() || service.container.is_some();
    match service.liveness {
        Liveness::Up => "●",
        Liveness::Down => if present {
            "◌"
        } else {
            "○"
        },
        Liveness::Unknown => "○",
    }
}

/// The name of a row: the label, unless it is blank, over the process name.
pub open spec fn row_name(s: ServiceView) -> Seq<char> {
    match s.label {
        Some(l) => if trimmed(l).len() > 0 {
            l
        } else if s.process_name.len() > 0 {
            s.process_name
        } else {
            "?"@
        },
        None => if s.process_name.len() > 0 {
            s.process_name
        } else {
            "?"@
        },
    }
}

/// `s` cut to `n` characters.
pub open spec fn cut(s: Seq<char>, n: int) -> Seq<char> {
    if s.len() <= n {
        s
    } else {
        s.take(n)
    }
}

/// The row of a service: glyph, name and port.
pub open spec fn row_of(s: ServiceView) -> Seq<char> {
    cut(
        glyph_of(s) + " "@ + row_name(s) + ":"@ + decimal_of(s.port as nat),
        TOKEN_VALUE_MAX as int,
    )
}

/// `{glyph} {name}:{port}`, label over process name, cut to the longest value
/// that a token may have.
pub fn row_text(service: &Service) -> (r: String)
    ensures
        r@ == row_of(service@),
        r@.len() <= TOKEN_VALUE_MAX,
{
    let label: &str = match &service.label {
        Some(l) => l.as_str(),
        None => "",
    };
    let name: &str = if !text::trim(label).as_str().is_empty() {
        label
    } else if !service.process_name.as_str().is_empty() {
        service.process_name.as_str()
    } else {
        "?"
    };
    proof {
        if service.label is None {
            reveal_strlit("");
            assert(""@ =~= seq![]);
            lemma_trim_shrinks(""@);
        }
        assert(name@ == row_name(service@));
    }
    let mut out: String = glyph(service).to_owned();
    text::push_text(&mut out, " ");
    text::push_text(&mut out, name);
    text::push_text(&mut out, ":");
    text::push_text(&mut out, number::decimal(service.port as u64).as_str());
    let v = text::chars_of(out.as_str());
    if v.len() <= TOKEN_VALUE_MAX {
        out
    } else {
        let r = text::piece(&v, 0, TOKEN_VALUE_MAX);
        assert(r@ =~= out@.take(TOKEN_VALUE_MAX as int));
        r
    }
}

proof fn lemma_trim_shrinks(s: Seq<char>)
    ensures
        trimmed(s).len() <= s.len(),
{
    text::lemma_run(s, spaces());
    text::lemma_tail_run(text::trim_start_of(s), spaces());
}

/// By port; on one port a manual entry first.
pub open spec fn by_port() -> spec_fn(ServiceView, ServiceView) -> bool {
    |a: ServiceView, b: ServiceView|
        a.port < b.port || (a.port == b.port && (a.source == Source::Manual || b.source
            != Source::Manual))
}

/// The services of a slice, with their texts as characters.
pub open spec fn services_view(v: Seq<&Service>) -> Seq<ServiceView> {
    v.map_values(|s: &Service| s@)
}

/// The rows of a workspace: ascending by port, at most `max`; what does not fit
/// is counted in the last row.
pub open spec fn rows_in(services: Seq<ServiceView>, max: int) -> Seq<Seq<char>> {
    let s = sorted(services, by_port());
    let shown = if max > 0 {
        max - 1
    } else {
        0
    };
    if s.len() <= max {
        s.map_values(|x: ServiceView| row_of(x))
    } else {
        s.take(shown).map_values(|x: ServiceView| row_of(x)).push(
            "… +"@ + decimal_of((s.len() - shown) as nat) + " more"@,
        )
    }
}

fn push_rows(rows: &mut Vec<String>, services: &Vec<Service>, n: usize)
    requires
        n <= services@.len(),
        old(rows)@.len() == 0,
    ensures
        texts(final(rows)@) == crate::state::rows_of(services@).take(n as int).map_values(
            |x: ServiceView| row_of(x),
        ),
{
    let ghost all = crate::state::rows_of(services@);
    let ghost want = all.take(n as int).map_values(|x: ServiceView| row_of(x));
    let mut i: usize = 0;
    assert(texts(rows@) =~= want.take(0));
    while i < n
        invariant
            i <= n <= services@.len(),
            all == crate::state::rows_of(services@),
            want == all.take(n as int).map_values(|x: ServiceView| row_of(x)),
            texts(rows@) == want.take(i as int),
        decreases n - i,
    {
        let ghost before = texts(rows@);
        rows.push(row_text(&services[i]));
        assert(texts(rows@) =~= before.push(want[i as int]));
        assert(texts(rows@) =~= want.take(i + 1));
        i = i + 1;
    }
    assert(want.take(i as int) =~= want);
}

/// The rows of one workspace: ascending by port, at most `max_rows`; what does
/// not fit is counted in the last row as `… +N more`.
pub fn rows_for(services: &[&Service], max_rows: usize) -> (r: Vec<String>)
    ensures
        texts(r@) == rows_in(services_view(services@), max_rows as int),
{
    let ghost all = services_view(services@);
    let mut copies: Vec<Service> = Vec::new();
    let mut i: usize = 0;
    assert(crate::state::rows_of(copies@) =~= all.take(0));
    while i < services.len()
        invariant
            i <= services@.len(),
            all == services_view(services@),
            crate::state::rows_of(copies@) == all.take(i as int),
        decreases services.len() - i,
    {
        let ghost before = crate::state::rows_of(copies@);
        copies.push(services[i].clone());
        assert(crate::state::rows_of(copies@) =~= before.push(all[i as int]));
        assert(crate::state::rows_of(copies@) =~= all.take(i + 1));
        i = i + 1;
    }
    proof {
        assert(all.take(i as int) =~= all);
        order::lemma_sorted_map(
            copies@,
            |s: Service| s@,
            |a: Service, b: Service| by_port()(a@, b@),
            by_port(),
        );
    }
    let ordered = order::sort(
        copies,
        |a: &Service, b: &Service| -> (c: bool)
            ensures
                c == by_port()(a@, b@)
            {
                a.port < b.port || (a.port == b.port && (a.source == Source::Manual || b.source
                    != Source::Manual))
            },
        Ghost(|a: Service, b: Service| by_port()(a@, b@)),
    );
    let ghost s = sorted(all, by_port());
    assert(crate::state::rows_of(ordered@) == s);
    let total: usize = ordered.len();
    let mut rows: Vec<String> = Vec::new();
    if total <= max_rows {
        push_rows(&mut rows, &ordered, total);
        assert(s.take(total as int) =~= s);
        return rows;
    }
    let shown: usize = if max_rows > 0 {
        max_rows - 1
    } else {
        0
    };
    push_rows(&mut rows, &ordered, shown);
    let ghost before = texts(rows@);
    let mut last: String = "… +".to_owned();
    text::push_text(&mut last, number::decimal((total - shown) as u64).as_str());
    text::push_text(&mut last, " more");
    let ghost l = last@;
    rows.push(last);
    assert(texts(rows@) =~= before.push(l));
    rows
}

/// The key of the token for row `i`.
pub open spec fn key_of(i: int) -> Seq<char> {
    "svc_"@ + decimal_of((i + 1) as nat)
}

/// The key of the token for row `index`.
pub fn token_key(index: usize) -> (r: String)
    requires
        index < usize::MAX,
    ensures
        r@ == key_of(index as int),
{
    let mut out: String = "svc_".to_owned();
    text::push_text(&mut out, number::decimal((index + 1) as u64).as_str());
    out
}

// ---------------------------------------------------------------------------
// Reporting
// ---------------------------------------------------------------------------

/// Tokens to set and to clear in one report.
#[derive(Debug)]
pub struct Report {
    pub set: Vec<(String, String)>,
    pub clear: Vec<String>,
    /// Whether the rows differ from those of the last report.
    pub changed: bool,
}

/// What was reported last for each workspace, so that shrinking lists are
/// cleared. Rows are sent on every scan: tokens expire, so that even an
/// unchanged list has to be sent again.
#[derive(Debug)]
pub struct Reporter {
    last: Vec<(String, Vec<String>)>,
}

/// The entries of a vector, as characters.
pub open spec fn entries_view(v: Seq<(String, Vec<String>)>) -> Seq<(Seq<char>, Seq<Seq<char>>)> {
    v.map_values(|e: (String, Vec<String>)| (e.0@, texts(e.1@)))
}

impl View for Reporter {
    type V = Map<Seq<char>, Seq<Seq<char>>>;

    closed spec fn view(&self) -> Map<Seq<char>, Seq<Seq<char>>> {
        as_map(entries_view(self.last@))
    }
}

/// The keys of rows `from` to `to`.
pub open spec fn keys_between(from: int, to: int) -> Seq<Seq<char>> {
    Seq::new(
        if from < to {
            (to - from) as nat
        } else {
            0
        },
        |i: int| key_of(from + i),
    )
}

/// A token for each row.
pub open spec fn tokens_of(rows: Seq<Seq<char>>) -> Seq<(Seq<char>, Seq<char>)> {
    rows.map(|i: int, row: Seq<char>| (key_of(i), row))
}

/// The pairs of a vector, as characters.
pub open spec fn pairs_view(v: Seq<(String, String)>) -> Seq<(Seq<char>, Seq<char>)> {
    v.map_values(|p: (String, String)| (p.0@, p.1@))
}

/// The keys of rows `from` to `to`.
pub fn keys(from: usize, to: usize) -> (r: Vec<String>)
    ensures
        texts(r@) == keys_between(from as int, to as int),
{
    let mut out: Vec<String> = Vec::new();
    let mut i: usize = from;
    assert(texts(out@) =~= keys_between(from as int, i as int));
    while i < to
        invariant
            from <= i,
            from < to ==> i <= to,
            from >= to ==> i == from,
            texts(out@) == keys_between(from as int, i as int),
        decreases to - i,
    {
        let ghost before = texts(out@);
        out.push(token_key(i));
        assert(texts(out@) =~= before.push(key_of(i as int)));
        assert(texts(out@) =~= keys_between(from as int, i + 1));
        i = i + 1;
    }
    if from >= to {
        assert(keys_between(from as int, i as int) =~= keys_between(from as int, to as int));
    }
    out
}

fn same_rows(a: &Vec<String>, b: &Vec<String>) -> (r: bool)
    ensures
        r == (texts(a@) == texts(b@)),
{
    if a.len() != b.len() {
        assert(texts(a@).len() != texts(b@).len());
        return false;
    }
    let mut i: usize = 0;
    while i < a.len()
        invariant
            i <= a@.len(),
            a@.len() == b@.len(),
            forall|j: int| 0 <= j < i ==> (#[trigger] a@[j])@ == b@[j]@,
        decreases a.len() - i,
    {
        if !text::same(a[i].as_str(), b[i].as_str()) {
            assert(texts(a@)[i as int] != texts(b@)[i as int]);
            return false;
        }
        i = i + 1;
    }
    assert(texts(a@) =~= texts(b@));
    true
}

impl Default for Reporter {
    fn default() -> (r: Self)
        ensures
            r.wf(),
            r@ == Map::<Seq<char>, Seq<Seq<char>>>::empty(),
    {
        let r = Reporter { last: Vec::new() };
        proof {
            assoc::lemma_no_pairs(entries_view(r.last@));
        }
        r
    }
}

/// One more element, where those that pass are kept in front of the rest.
proof fn lemma_sift_step<T>(s: Seq<T>, p: spec_fn(T) -> bool, k: int)
    requires
        0 <= k < s.len(),
    ensures
        ({
            let front = s.take(k).filter(p);
            let next = s.take(k + 1).filter(p);
            let all = front + s.skip(k);
            &&& all[front.len() as int] == s[k]
            &&& p(s[k]) ==> next.len() == front.len() + 1 && next + s.skip(k + 1) == all
            &&& !p(s[k]) ==> next.len() == front.len() && next + s.skip(k + 1) == all.remove(
                front.len() as int,
            )
        }),
{
    let front = s.take(k).filter(p);
    seqs::lemma_filter_step(s, p, k);
    assert(s.skip(k) =~= seq![s[k]] + s.skip(k + 1));
    assert(front.push(s[k]) + s.skip(k + 1) =~= front + s.skip(k));
    assert((front + s.skip(k)).remove(front.len() as int) =~= front + s.skip(k + 1));
}

/// One more element, where those that pass are mapped.
proof fn lemma_map_step<T, U>(s: Seq<T>, p: spec_fn(T) -> bool, f: spec_fn(T) -> U, k: int)
    requires
        0 <= k < s.len(),
    ensures
        s.take(k + 1).filter(p).map_values(f) == if p(s[k]) {
            s.take(k).filter(p).map_values(f).push(f(s[k]))
        } else {
            s.take(k).filter(p).map_values(f)
        },
{
    seqs::lemma_filter_step(s, p, k);
    assert(s.take(k).filter(p).push(s[k]).map_values(f) =~= s.take(k).filter(p).map_values(f).push(
        f(s[k]),
    ));
}

/// These clears take back the rows of every workspace that was reported to and
/// is not live, each once.
pub open spec fn clears_the_missing(
    clears: Seq<(Seq<char>, Seq<Seq<char>>)>,
    last: Map<Seq<char>, Seq<Seq<char>>>,
    live: Seq<Seq<char>>,
) -> bool {
    &&& distinct(clears)
    &&& forall|c: (Seq<char>, Seq<Seq<char>>)| #[trigger]
        clears.contains(c) <==> last.contains_key(c.0) && !live.contains(c.0) && c.1
            == keys_between(0, last[c.0].len() as int)
}

impl Reporter {
    /// No workspace is remembered twice.
    pub closed spec fn wf(&self) -> bool {
        distinct(entries_view(self.last@))
    }

    fn find(&self, workspace_id: &str) -> (r: usize)
        ensures
            r == first_where(
                entries_view(self.last@),
                has_key::<Seq<char>, Seq<Seq<char>>>(workspace_id@),
            ),
            r <= self.last@.len(),
    {
        let ghost p = has_key::<Seq<char>, Seq<Seq<char>>>(workspace_id@);
        let r = seqs::find_where(
            &self.last,
            |e: &(String, Vec<String>)| -> (b: bool)
                ensures
                    b == (e.0@ == workspace_id@)
                { text::same(e.0.as_str(), workspace_id) },
            Ghost(|e: (String, Vec<String>)| e.0@ == workspace_id@),
        );
        proof {
            seqs::lemma_first_where_map(
                self.last@,
                |e: (String, Vec<String>)| (e.0@, texts(e.1@)),
                |e: (String, Vec<String>)| e.0@ == workspace_id@,
                p,
            );
        }
        r
    }

    /// What to report for `workspace_id` so that it shows `rows`: every row is
    /// set, and rows of the last report beyond them are cleared.
    pub fn report(&self, workspace_id: &str, rows: &Vec<String>) -> (r: Report)
        ensures
            pairs_view(r.set@) == tokens_of(texts(rows@)),
            texts(r.clear@) == keys_between(
                rows@.len() as int,
                if self@.contains_key(workspace_id@) {
                    self@[workspace_id@].len() as int
                } else {
                    0
                },
            ),
            r.changed == !(self@.contains_key(workspace_id@) && self@[workspace_id@] == texts(
                rows@,
            )),
    {
        let k = self.find(workspace_id);
        let (changed, previous): (bool, usize) = if k < self.last.len() {
            assert(entries_view(self.last@)[k as int].1 == texts(self.last@[k as int].1@));
            (!same_rows(&self.last[k].1, rows), self.last[k].1.len())
        } else {
            (true, 0)
        };
        let ghost want = tokens_of(texts(rows@));
        let mut set: Vec<(String, String)> = Vec::new();
        let mut i: usize = 0;
        assert(pairs_view(set@) =~= want.take(0));
        while i < rows.len()
            invariant
                i <= rows@.len(),
                want == tokens_of(texts(rows@)),
                pairs_view(set@) == want.take(i as int),
            decreases rows.len() - i,
        {
            let ghost before = pairs_view(set@);
            set.push((token_key(i), rows[i].clone()));
            assert(pairs_view(set@) =~= before.push(want[i as int]));
            assert(pairs_view(set@) =~= want.take(i + 1));
            i = i + 1;
        }
        assert(want.take(i as int) =~= want);
        Report { set, clear: keys(rows.len(), previous), changed }
    }

    /// Remembers that `rows` were reported for `workspace_id`.
    pub fn acknowledge(&mut self, workspace_id: &str, rows: Vec<String>)
        requires
            old(self).wf(),
        ensures
            final(self).wf(),
            final(self)@ == old(self)@.insert(workspace_id@, texts(rows@)),
    {
        let k = self.find(workspace_id);
        let ghost before = entries_view(self.last@);
        let ghost entry = (workspace_id@, texts(rows@));
        proof {
            assoc::lemma_with_pair(before, workspace_id@, texts(rows@));
        }
        if k < self.last.len() {
            let owner: String = workspace_id.to_owned();
            self.last.set(k, (owner, rows));
            assert(entries_view(self.last@) =~= before.update(k as int, entry));
        } else {
            self.last.push((workspace_id.to_owned(), rows));
            assert(entries_view(self.last@) =~= before.push(entry));
        }
    }

    /// The clears for workspaces that were reported to before but are not
    /// `live`; they are forgotten.
    pub fn clear_missing(&mut self, live: &Vec<String>) -> (r: Vec<(String, Vec<String>)>)
        requires
            old(self).wf(),
        ensures
            final(self).wf(),
            forall|ws: Seq<char>| #[trigger]
                final(self)@.contains_key(ws) <==> old(self)@.contains_key(ws) && texts(
                    live@,
                ).contains(ws),
            forall|ws: Seq<char>| #[trigger]
                final(self)@.contains_key(ws) ==> final(self)@[ws] == old(self)@[ws],
            clears_the_missing(entries_view(r@), old(self)@, texts(live@)),
    {
        let ghost es = entries_view(self.last@);
        let ghost is_live = |e: (Seq<char>, Seq<Seq<char>>)| texts(live@).contains(e.0);
        let ghost is_gone = |e: (Seq<char>, Seq<Seq<char>>)| !texts(live@).contains(e.0);
        let ghost take_back = |e: (Seq<char>, Seq<Seq<char>>)|
            (e.0, keys_between(0, e.1.len() as int));
        let ghost mut k: int = 0;
        let mut gone: Vec<(String, Vec<String>)> = Vec::new();
        let mut i: usize = 0;
        proof {
            seqs::lemma_filter_push(es, is_live, arbitrary());
            seqs::lemma_filter_push(es, is_gone, arbitrary());
            assert(es.take(0) =~= seq![]);
            assert(es.skip(0) =~= es);
            assert(entries_view(gone@) =~= es.take(0).filter(is_gone).map_values(take_back));
            assert(es.take(0) + es =~= es);
        }
        while i < self.last.len()
            invariant
                i <= self.last@.len(),
                0 <= k <= es.len(),
                self.last@.len() - i == es.len() - k,
                is_live == (|e: (Seq<char>, Seq<Seq<char>>)| texts(live@).contains(e.0)),
                is_gone == (|e: (Seq<char>, Seq<Seq<char>>)| !texts(live@).contains(e.0)),
                take_back == (|e: (Seq<char>, Seq<Seq<char>>)|
                    (e.0, keys_between(0, e.1.len() as int))),
                i == es.take(k).filter(is_live).len(),
                entries_view(self.last@) == es.take(k).filter(is_live) + es.skip(k),
                entries_view(gone@) == es.take(k).filter(is_gone).map_values(take_back),
            decreases self.last.len() - i,
        {
            let ghost before = entries_view(self.last@);
            proof {
                lemma_sift_step(es, is_live, k);
                lemma_map_step(es, is_gone, take_back, k);
            }
            if text::has_text(live, self.last[i].0.as_str()) {
                i = i + 1;
            } else {
                let (ws, rows) = self.last.remove(i);
                let ghost done = entries_view(gone@);
                let clear = keys(0, rows.len());
                proof {
                    assert(es[k] == (ws@, texts(rows@)));
                    assert(entries_view(self.last@) =~= before.remove(i as int));
                }
                gone.push((ws, clear));
                assert(entries_view(gone@) =~= done.push(take_back(es[k])));
            }
            proof {
                k = k + 1;
            }
        }
        proof {
            assert(es.take(k) =~= es);
            assert(es.skip(k) =~= seq![]);
            let kept = es.filter(is_live);
            let lost = es.filter(is_gone);
            assert(entries_view(self.last@) =~= kept);
            assoc::lemma_filtered(es, is_live);
            assoc::lemma_filtered(es, is_gone);
            assoc::lemma_pairs_of_map(es);
            seqs::lemma_filter_members(es, is_gone);
            let m = as_map(es);
            let rel = keys_differ::<Seq<char>, Seq<Seq<char>>>();
            let clears = lost.map_values(take_back);
            assert forall|a: int, b: int| 0 <= a < b < clears.len() implies rel(
                #[trigger] clears[a],
                #[trigger] clears[b],
            ) by {
                assert(rel(lost[a], lost[b]));
            }
            assert forall|c: (Seq<char>, Seq<Seq<char>>)| #[trigger]
                clears.contains(c) <==> m.contains_key(c.0) && !texts(live@).contains(c.0) && c.1
                    == keys_between(0, m[c.0].len() as int) by {
                if clears.contains(c) {
                    let a = choose|a: int| 0 <= a < clears.len() && clears[a] == c;
                    assert(c == take_back(lost[a]));
                    assert(lost.contains(lost[a]));
                    assert(es.contains(lost[a]));
                }
                if m.contains_key(c.0) && !texts(live@).contains(c.0) && c.1 == keys_between(
                    0,
                    m[c.0].len() as int,
                ) {
                    assert(es.contains((c.0, m[c.0])));
                    assert(lost.contains((c.0, m[c.0])));
                    let a = choose|a: int| 0 <= a < lost.len() && lost[a] == (c.0, m[c.0]);
                    assert(clears[a] == c);
                }
            }
        }
        gone
    }
}

// ---------------------------------------------------------------------------
// The managed block
// ---------------------------------------------------------------------------

/// `lines` as text, each ended by a line feed.
pub open spec fn as_text(lines: Seq<Seq<char>>) -> Seq<char>
    decreases lines.len(),
{
    if lines.len() == 0 {
        seq![]
    } else {
        as_text(lines.drop_last()) + lines.last().push('\n')
    }
}

/// The line that shows the token of row `i`: dim, but green or red by its
/// glyph.
pub open spec fn cell_of(i: int) -> Seq<char> {
    "  [{ token = \"$"@ + key_of(i)
        + "\", dim = true, rules = [{ starts_with = \"●\", dim = false, fg = \"#98c379\" }, { starts_with = \"◌\", dim = false, fg = \"#e06c75\" }] }],"@
}

/// The lines that lay out `n` rows.
pub open spec fn snippet_lines(n: int) -> Seq<Seq<char>> {
    seq![
        "rows = ["@,
        "  [\"state_icon\", \"workspace\"],"@,
        "  [\"branch\", \"git_status\"],"@,
    ] + Seq::new(n as nat, |i: int| cell_of(i)) + seq!["]"@]
}

/// The lines of the managed block for `n` rows.
pub open spec fn block_lines(n: int) -> Seq<Seq<char>> {
    seq![BLOCK_START@, SPACES_TABLE@, "row_gap = 0"@] + snippet_lines(n) + seq![BLOCK_END@]
}

fn push_line(out: &mut String, line: &str, Ghost(lines): Ghost<Seq<Seq<char>>>)
    requires
        old(out)@ == as_text(lines),
    ensures
        final(out)@ == as_text(lines.push(line@)),
{
    let ghost before = out@;
    text::push_text(out, line);
    out.push('\n');
    assert(lines.push(line@).drop_last() =~= lines);
    assert(out@ =~= before + line@.push('\n'));
}

fn cell(i: usize) -> (r: String)
    requires
        i < usize::MAX,
    ensures
        r@ == cell_of(i as int),
{
    let mut out: String = "  [{ token = \"$".to_owned();
    text::push_text(&mut out, token_key(i).as_str());
    text::push_text(
        &mut out,
        "\", dim = true, rules = [{ starts_with = \"●\", dim = false, fg = \"#98c379\" }, { starts_with = \"◌\", dim = false, fg = \"#e06c75\" }] }],",
    );
    out
}

fn push_snippet(out: &mut String, max_rows: usize, Ghost(lines): Ghost<Seq<Seq<char>>>)
    requires
        old(out)@ == as_text(lines),
    ensures
        final(out)@ == as_text(lines + snippet_lines(max_rows as int)),
{
    let ghost head = seq![
        "rows = ["@,
        "  [\"state_icon\", \"workspace\"],"@,
        "  [\"branch\", \"git_status\"],"@,
    ];
    let ghost cells = Seq::new(max_rows as nat, |i: int| cell_of(i));
    push_line(out, "rows = [", Ghost(lines));
    push_line(
        out,
        "  [\"state_icon\", \"workspace\"],",
        Ghost(lines.push("rows = ["@)),
    );
    push_line(
        out,
        "  [\"branch\", \"git_status\"],",
        Ghost(lines.push("rows = ["@).push("  [\"state_icon\", \"workspace\"],"@)),
    );
    let mut i: usize = 0;
    proof {
        assert(lines.push("rows = ["@).push("  [\"state_icon\", \"workspace\"],"@).push(
            "  [\"branch\", \"git_status\"],"@,
        ) =~= lines + head + cells.take(0));
    }
    while i < max_rows
        invariant
            i <= max_rows,
            cells == Seq::new(max_rows as nat, |i: int| cell_of(i)),
            out@ == as_text(lines + head + cells.take(i as int)),
        decreases max_rows - i,
    {
        push_line(out, cell(i).as_str(), Ghost(lines + head + cells.take(i as int)));
        assert((lines + head + cells.take(i as int)).push(cell_of(i as int)) =~= lines + head
            + cells.take(i + 1));
        i = i + 1;
    }
    push_line(out, "]", Ghost(lines + head + cells.take(i as int)));
    assert((lines + head + cells.take(i as int)).push("]"@) =~= lines + snippet_lines(
        max_rows as int,
    ));
}

/// The layout of the rows, without the table's header.
pub fn rows_snippet(max_rows: usize) -> (r: String)
    ensures
        r@ == as_text(snippet_lines(max_rows as int)),
{
    let mut out = String::new();
    push_snippet(&mut out, max_rows, Ghost(Seq::<Seq<char>>::empty()));
    assert(Seq::<Seq<char>>::empty() + snippet_lines(max_rows as int) =~= snippet_lines(
        max_rows as int,
    ));
    out
}

/// The whole managed block.
pub fn managed_block(max_rows: usize) -> (r: String)
    ensures
        r@ == as_text(block_lines(max_rows as int)),
{
    let mut out = String::new();
    let ghost head = seq![BLOCK_START@, SPACES_TABLE@, "row_gap = 0"@];
    push_line(&mut out, BLOCK_START, Ghost(Seq::<Seq<char>>::empty()));
    push_line(&mut out, SPACES_TABLE, Ghost(Seq::<Seq<char>>::empty().push(BLOCK_START@)));
    push_line(
        &mut out,
        "row_gap = 0",
        Ghost(Seq::<Seq<char>>::empty().push(BLOCK_START@).push(SPACES_TABLE@)),
    );
    assert(Seq::<Seq<char>>::empty().push(BLOCK_START@).push(SPACES_TABLE@).push("row_gap = 0"@)
        =~= head);
    push_snippet(&mut out, max_rows, Ghost(head));
    push_line(&mut out, BLOCK_END, Ghost(head + snippet_lines(max_rows as int)));
    assert((head + snippet_lines(max_rows as int)).push(BLOCK_END@) =~= block_lines(
        max_rows as int,
    ));
    out
}

/// `line` opens a managed block.
pub open spec fn opens(line: Seq<char>) -> bool {
    trimmed(line) == BLOCK_START@
}

/// `line` closes a managed block.
pub open spec fn closes(line: Seq<char>) -> bool {
    trimmed(line) == BLOCK_END@ && trimmed(line) != BLOCK_START@
}

/// What follows these lines lies in a managed block: it was opened and not
/// closed since.
pub open spec fn inside_after(lines: Seq<Seq<char>>) -> bool
    decreases lines.len(),
{
    if lines.len() == 0 {
        false
    } else if opens(lines.last()) {
        true
    } else if closes(lines.last()) {
        false
    } else {
        inside_after(lines.drop_last())
    }
}

/// Line `i` belongs to the user: it is no marker and lies in no managed block.
pub open spec fn is_users(lines: Seq<Seq<char>>, i: int) -> bool {
    !opens(lines[i]) && !closes(lines[i]) && !inside_after(lines.take(i))
}

/// The user defines the table of the sidebar.
pub open spec fn foreign_table(lines: Seq<Seq<char>>) -> bool {
    exists|i: int|
        0 <= i < lines.len() && #[trigger] is_users(lines, i) && trimmed(lines[i]) == SPACES_TABLE@
}

/// Some line opens a managed block.
pub open spec fn has_opening(lines: Seq<Seq<char>>) -> bool {
    exists|i: int| 0 <= i < lines.len() && opens(#[trigger] lines[i])
}

/// The lines that belong to the user.
pub open spec fn users_lines(lines: Seq<Seq<char>>) -> Seq<Seq<char>>
    decreases lines.len(),
{
    if lines.len() == 0 {
        seq![]
    } else {
        let front = lines.drop_last();
        if opens(lines.last()) || closes(lines.last()) || inside_after(front) {
            users_lines(front)
        } else {
            users_lines(front).push(lines.last())
        }
    }
}

/// `lines` with `block` in the place of each managed block.
pub open spec fn with_block(lines: Seq<Seq<char>>, block: Seq<Seq<char>>) -> Seq<Seq<char>>
    decreases lines.len(),
{
    if lines.len() == 0 {
        seq![]
    } else {
        let front = lines.drop_last();
        if opens(lines.last()) {
            with_block(front, block) + block
        } else if closes(lines.last()) || inside_after(front) {
            with_block(front, block)
        } else {
            with_block(front, block).push(lines.last())
        }
    }
}

/// Line feeds.
pub open spec fn feeds() -> spec_fn(char) -> bool {
    |c: char| c == '\n'
}

/// `s` with at most one line feed at its end.
pub open spec fn one_feed(s: Seq<char>) -> Seq<char> {
    if tail_run(s, feeds()) > 1 {
        s.take(s.len() - tail_run(s, feeds()) + 1)
    } else {
        s
    }
}

/// `s` made ready for a block behind it: its last line ended, and a blank line.
pub open spec fn spaced(s: Seq<char>) -> Seq<char> {
    if s.len() == 0 {
        s
    } else if s.last() == '\n' {
        s.push('\n')
    } else {
        s.push('\n').push('\n')
    }
}

/// A configuration with the managed block in it.
pub open spec fn installed(s: Seq<char>, n: int) -> Seq<char> {
    if has_opening(lines_of(s)) {
        as_text(with_block(lines_of(s), block_lines(n)))
    } else {
        spaced(s) + as_text(block_lines(n))
    }
}

/// A configuration without the managed block.
pub open spec fn removed(s: Seq<char>) -> Seq<char> {
    if has_opening(lines_of(s)) {
        one_feed(as_text(users_lines(lines_of(s))))
    } else {
        s
    }
}

/// Why the block was not installed.
#[derive(Debug, Clone, Copy, PartialEq, Eq, Structural)]
pub enum BlockError {
    /// The user defines the table outside the managed block.
    ForeignTable,
}

impl BlockError {
    /// The error in words.
    pub fn message(&self) -> (r: String)
        ensures
            r@ == "config already defines [ui.sidebar.spaces] outside the herdr-services block"@,
    {
        "config already defines [ui.sidebar.spaces] outside the herdr-services block".to_owned()
    }
}

/// What a line is to the managed block.
enum Mark {
    Open,
    Close,
    Other,
}

fn mark(line: &str) -> (r: Mark)
    ensures
        r is Open <==> opens(line@),
        r is Close <==> closes(line@),
{
    let t = text::trim(line);
    if text::same(t.as_str(), BLOCK_START) {
        Mark::Open
    } else if text::same(t.as_str(), BLOCK_END) {
        Mark::Close
    } else {
        Mark::Other
    }
}

/// Whether `s` defines the table of the sidebar outside the managed block.
pub fn foreign_spaces_table(s: &str) -> (r: bool)
    ensures
        r == foreign_table(lines_of(s@)),
{
    let lines = text::lines(s);
    let ghost all = texts(lines@);
    let mut inside = false;
    let mut i: usize = 0;
    while i < lines.len()
        invariant
            i <= lines@.len(),
            all == texts(lines@),
            all == lines_of(s@),
            inside == inside_after(all.take(i as int)),
            forall|j: int|
                0 <= j < i ==> !(#[trigger] is_users(all, j) && trimmed(all[j]) == SPACES_TABLE@),
        decreases lines.len() - i,
    {
        proof {
            assert(all.take(i + 1).drop_last() =~= all.take(i as int));
            assert(all.take(i + 1).last() == all[i as int]);
        }
        match mark(lines[i].as_str()) {
            Mark::Open => {
                inside = true;
            },
            Mark::Close => {
                inside = false;
            },
            Mark::Other => {
                if !inside && text::same(text::trim(lines[i].as_str()).as_str(), SPACES_TABLE) {
                    assert(is_users(all, i as int));
                    return true;
                }
            },
        }
        i = i + 1;
    }
    false
}

/// Whether `s` holds a managed block.
pub fn has_block(s: &str) -> (r: bool)
    ensures
        r == has_opening(lines_of(s@)),
{
    let lines = text::lines(s);
    let ghost all = texts(lines@);
    let mut i: usize = 0;
    while i < lines.len()
        invariant
            i <= lines@.len(),
            all == texts(lines@),
            all == lines_of(s@),
            forall|j: int| 0 <= j < i ==> !opens(#[trigger] all[j]),
        decreases lines.len() - i,
    {
        if let Mark::Open = mark(lines[i].as_str()) {
            assert(opens(all[i as int]));
            return true;
        }
        i = i + 1;
    }
    false
}

/// Installs or refreshes the managed block, unless the user defines the table
/// outside it.
pub fn install_block(s: &str, max_rows: usize) -> (r: Result<String, BlockError>)
    ensures
        r is Err <==> foreign_table(lines_of(s@)),
        r matches Ok(t) ==> t@ == installed(s@, max_rows as int),
{
    if foreign_spaces_table(s) {
        return Err(BlockError::ForeignTable);
    }
    let block = managed_block(max_rows);
    if has_block(s) {
        return Ok(replace_block(s, block.as_str(), Ghost(block_lines(max_rows as int))));
    }
    let v = text::chars_of(s);
    let mut out: String = s.to_owned();
    if v.len() > 0 {
        if v[v.len() - 1] != '\n' {
            out.push('\n');
        }
        out.push('\n');
    }
    assert(out@ =~= spaced(s@));
    text::push_text(&mut out, block.as_str());
    Ok(out)
}

/// Removes the managed block; a text without one stays as it is.
pub fn remove_block(s: &str) -> (r: String)
    ensures
        r@ == removed(s@),
{
    if !has_block(s) {
        return s.to_owned();
    }
    let lines = text::lines(s);
    let ghost all = texts(lines@);
    let mut out = String::new();
    let mut inside = false;
    let mut i: usize = 0;
    assert(out@ =~= as_text(users_lines(all.take(0))));
    while i < lines.len()
        invariant
            i <= lines@.len(),
            all == texts(lines@),
            inside == inside_after(all.take(i as int)),
            out@ == as_text(users_lines(all.take(i as int))),
        decreases lines.len() - i,
    {
        proof {
            assert(all.take(i + 1).drop_last() =~= all.take(i as int));
            assert(all.take(i + 1).last() == all[i as int]);
        }
        match mark(lines[i].as_str()) {
            Mark::Open => {
                inside = true;
            },
            Mark::Close => {
                inside = false;
            },
            Mark::Other => {
                if !inside {
                    push_line(
                        &mut out,
                        lines[i].as_str(),
                        Ghost(users_lines(all.take(i as int))),
                    );
                }
            },
        }
        i = i + 1;
    }
    assert(all.take(i as int) =~= all);
    end_once(out.as_str())
}

/// `s` with at most one line feed at its end.
fn end_once(s: &str) -> (r: String)
    ensures
        r@ == one_feed(s@),
{
    let v = text::chars_of(s);
    let mut n: usize = v.len();
    while n > 0 && v[n - 1] == '\n'
        invariant
            n <= v@.len(),
            forall|j: int| n <= j < v@.len() ==> #[trigger] v@[j] == '\n',
        decreases n,
    {
        n = n - 1;
    }
    proof {
        text::lemma_tail_run_unique(v@, feeds(), v@.len() - n);
    }
    if v.len() - n > 1 {
        let r = text::piece(&v, 0, n + 1);
        assert(r@ =~= one_feed(s@));
        r
    } else {
        s.to_owned()
    }
}

/// Puts `block` in the place of each managed block.
fn replace_block(s: &str, block: &str, Ghost(b): Ghost<Seq<Seq<char>>>) -> (r: String)
    requires
        block@ == as_text(b),
    ensures
        r@ == as_text(with_block(lines_of(s@), b)),
{
    let lines = text::lines(s);
    let ghost all = texts(lines@);
    let mut out = String::new();
    let mut inside = false;
    let mut i: usize = 0;
    assert(out@ =~= as_text(with_block(all.take(0), b)));
    while i < lines.len()
        invariant
            i <= lines@.len(),
            all == texts(lines@),
            block@ == as_text(b),
            inside == inside_after(all.take(i as int)),
            out@ == as_text(with_block(all.take(i as int), b)),
        decreases lines.len() - i,
    {
        proof {
            assert(all.take(i + 1).drop_last() =~= all.take(i as int));
            assert(all.take(i + 1).last() == all[i as int]);
        }
        match mark(lines[i].as_str()) {
            Mark::Open => {
                inside = true;
                text::push_text(&mut out, block);
                proof {
                    lemma_as_text_add(with_block(all.take(i as int), b), b);
                }
            },
            Mark::Close => {
                inside = false;
            },
            Mark::Other => {
                if !inside {
                    push_line(
                        &mut out,
                        lines[i].as_str(),
                        Ghost(with_block(all.take(i as int), b)),
                    );
                }
            },
        }
        i = i + 1;
    }
    assert(all.take(i as int) =~= all);
    out
}

proof fn lemma_as_text_add(a: Seq<Seq<char>>, b: Seq<Seq<char>>)
    ensures
        as_text(a + b) == as_text(a) + as_text(b),
    decreases b.len(),
{
    if b.len() == 0 {
        assert(a + b =~= a);
        assert(as_text(a) + as_text(b) =~= as_text(a));
    } else {
        lemma_as_text_add(a, b.drop_last());
        assert((a + b).drop_last() =~= a + b.drop_last());
        assert((a + b).last() == b.last());
        assert(as_text(a + b) =~= as_text(a) + as_text(b));
    }
}

// ---------------------------------------------------------------------------
// Laws of rows and tokens
// ---------------------------------------------------------------------------

/// A workspace never has more rows than allowed, and they ascend by port.
pub proof fn rows_are_few_and_ascend(services: Seq<ServiceView>, max: int)
    requires
        max >= 1,
    ensures
        rows_in(services, max).len() <= max,
        services.len() <= max ==> rows_in(services, max).len() == services.len(),
        order::in_order(
            sorted(services, by_port()),
            |a: ServiceView, b: ServiceView| a.port <= b.port,
        ),
{
    order::sorting_keeps_the_elements(services, by_port());
    assert(order::total_order(by_port()));
    order::sorting_gives_an_order(services, by_port());
    let s = sorted(services, by_port());
    let rel = |a: ServiceView, b: ServiceView| a.port <= b.port;
    assert forall|i: int, j: int| 0 <= i < j < s.len() implies rel(
        #[trigger] s[i],
        #[trigger] s[j],
    ) by {
        assert(by_port()(s[i], s[j]));
    }
}

/// No row is longer than a token may be.
pub proof fn rows_fit_into_tokens(services: Seq<ServiceView>, max: int)
    requires
        services.len() <= u64::MAX,
    ensures
        forall|i: int|
            0 <= i < rows_in(services, max).len() ==> (#[trigger] rows_in(services, max)[i]).len()
                <= TOKEN_VALUE_MAX,
{
    order::sorting_keeps_the_elements(services, by_port());
    let s = sorted(services, by_port());
    let shown = if max > 0 {
        max - 1
    } else {
        0
    };
    if s.len() > max {
        assert(number::ten_to(20) == 100_000_000_000_000_000_000) by {
            reveal_with_fuel(number::ten_to, 21);
        }
        number::lemma_decimal_len((s.len() - shown) as nat, 20);
        reveal_strlit("… +");
        reveal_strlit(" more");
    }
}

/// `k` is the key of one of `n` rows.
pub open spec fn is_row_key(k: Seq<char>, n: nat) -> bool {
    exists|i: int| 0 <= i < n && k == #[trigger] key_of(i)
}

/// `k` is the key of one of these tokens.
pub open spec fn is_set(k: Seq<char>, set: Seq<(Seq<char>, Seq<char>)>) -> bool {
    exists|i: int| 0 <= i < set.len() && (#[trigger] set[i]).0 == k
}

/// What a sidebar shows: a value for each token.
pub open spec fn shown_tokens(rows: Seq<Seq<char>>) -> Map<Seq<char>, Seq<char>> {
    Map::new(
        |k: Seq<char>| is_row_key(k, rows.len()),
        |k: Seq<char>| rows[choose|i: int| 0 <= i < rows.len() && k == #[trigger] key_of(i)],
    )
}

/// The tokens of a sidebar after a report: those cleared are gone, those set
/// have their new values.
pub open spec fn after_report(
    shown: Map<Seq<char>, Seq<char>>,
    set: Seq<(Seq<char>, Seq<char>)>,
    clear: Seq<Seq<char>>,
) -> Map<Seq<char>, Seq<char>> {
    Map::new(
        |k: Seq<char>| is_set(k, set) || (shown.contains_key(k) && !clear.contains(k)),
        |k: Seq<char>|
            if is_set(k, set) {
                set[choose|i: int| 0 <= i < set.len() && (#[trigger] set[i]).0 == k].1
            } else {
                shown[k]
            },
    )
}

proof fn lemma_keys_differ(i: int, j: int)
    requires
        0 <= i,
        0 <= j,
        key_of(i) == key_of(j),
    ensures
        i == j,
{
    let a = decimal_of((i + 1) as nat);
    let b = decimal_of((j + 1) as nat);
    assert(a =~= key_of(i).skip("svc_"@.len() as int));
    assert(b =~= key_of(j).skip("svc_"@.len() as int));
    number::decimal_denotes_itself((i + 1) as nat);
    number::decimal_denotes_itself((j + 1) as nat);
}

/// A sidebar that showed the rows of the last report shows exactly the new rows
/// after the next one.
pub proof fn a_report_leaves_exactly_its_rows(previous: Seq<Seq<char>>, rows: Seq<Seq<char>>)
    ensures
        after_report(
            shown_tokens(previous),
            tokens_of(rows),
            keys_between(rows.len() as int, previous.len() as int),
        ) == shown_tokens(rows),
{
    let set = tokens_of(rows);
    let clear = keys_between(rows.len() as int, previous.len() as int);
    let before = shown_tokens(previous);
    let after = after_report(before, set, clear);
    let want = shown_tokens(rows);
    assert forall|k: Seq<char>| #[trigger] is_set(k, set) <==> is_row_key(k, rows.len()) by {
        if is_set(k, set) {
            let i = choose|i: int| 0 <= i < set.len() && (#[trigger] set[i]).0 == k;
            assert(k == key_of(i));
        }
        if is_row_key(k, rows.len()) {
            let i = choose|i: int| 0 <= i < rows.len() && k == #[trigger] key_of(i);
            assert(set[i].0 == k);
        }
    }
    assert forall|k: Seq<char>| #[trigger] after.contains_key(k) <==> want.contains_key(k) by {
        assert(is_set(k, set) <==> is_row_key(k, rows.len()));
        if before.contains_key(k) && !want.contains_key(k) {
            let i = choose|i: int| 0 <= i < previous.len() && k == #[trigger] key_of(i);
            assert(i >= rows.len());
            assert(clear[i - rows.len()] == key_of(i));
            assert(clear.contains(k));
        }
    }
    assert forall|k: Seq<char>| #[trigger] want.contains_key(k) implies after[k] == want[k] by {
        assert(is_set(k, set));
        let i = choose|i: int| 0 <= i < rows.len() && k == #[trigger] key_of(i);
        assert(set[i].0 == k);
        let j = choose|j: int| 0 <= j < set.len() && (#[trigger] set[j]).0 == k;
        assert(key_of(j) == k);
        lemma_keys_differ(i, j);
    }
    assert(after =~= want);
}

// ---------------------------------------------------------------------------
// Laws of the managed block
// ---------------------------------------------------------------------------

/// No line holds a line feed.
pub open spec fn unbroken(lines: Seq<Seq<char>>) -> bool {
    forall|i: int| 0 <= i < lines.len() ==> !(#[trigger] lines[i]).contains('\n')
}

/// The lines differ at most in white space at their ends.
pub open spec fn alike(a: Seq<Seq<char>>, b: Seq<Seq<char>>) -> bool {
    &&& a.len() == b.len()
    &&& forall|i: int| 0 <= i < a.len() ==> trimmed(#[trigger] a[i]) == trimmed(b[i])
}

proof fn lemma_line_first(a: Seq<char>, rest: Seq<char>)
    requires
        !a.contains('\n'),
    ensures
        lines_of(a.push('\n') + rest) == seq![text::strip_cr(a)] + lines_of(rest),
{
    let s = a.push('\n') + rest;
    let p = text::other_than('\n');
    assert forall|i: int| 0 <= i < a.len() implies p(#[trigger] s[i]) by {
        assert(a.contains(a[i]));
    }
    text::lemma_run_unique(s, p, a.len() as int);
    assert(s.take(a.len() as int) =~= a);
    assert(s.skip(a.len() as int + 1) =~= rest);
}

proof fn lemma_lines_of_text(lines: Seq<Seq<char>>, rest: Seq<char>)
    requires
        unbroken(lines),
    ensures
        lines_of(as_text(lines) + rest) == lines.map_values(|l: Seq<char>| text::strip_cr(l))
            + lines_of(rest),
    decreases lines.len(),
{
    let f = |l: Seq<char>| text::strip_cr(l);
    if lines.len() == 0 {
        assert(as_text(lines) + rest =~= rest);
        assert(lines.map_values(f) + lines_of(rest) =~= lines_of(rest));
    } else {
        let front = lines.drop_last();
        let l = lines.last();
        assert(unbroken(front)) by {
            assert forall|i: int| 0 <= i < front.len() implies !(#[trigger] front[i]).contains(
                '\n',
            ) by {
                assert(front[i] == lines[i]);
            }
        }
        assert(!lines[lines.len() - 1].contains('\n'));
        lemma_lines_of_text(front, l.push('\n') + rest);
        lemma_line_first(l, rest);
        assert(as_text(lines) + rest =~= as_text(front) + (l.push('\n') + rest));
        assert(front.map_values(f) + (seq![f(l)] + lines_of(rest)) =~= lines.map_values(f)
            + lines_of(rest));
    }
}

proof fn lemma_lines_unbroken(s: Seq<char>)
    ensures
        unbroken(lines_of(s)),
    decreases s.len(),
{
    let p = text::other_than('\n');
    text::lemma_run(s, p);
    let i = text::run(s, p) as int;
    if i < s.len() {
        lemma_lines_unbroken(s.skip(i + 1));
        let first = text::strip_cr(s.take(i));
        assert forall|k: int| 0 <= k < lines_of(s).len() implies !(#[trigger] lines_of(
            s,
        )[k]).contains('\n') by {
            if k == 0 {
                assert forall|j: int| 0 <= j < first.len() implies #[trigger] first[j] != '\n' by {
                    assert(p(s[j]));
                }
            } else {
                assert(lines_of(s)[k] == lines_of(s.skip(i + 1))[k - 1]);
            }
        }
    } else if s.len() > 0 {
        assert forall|j: int| 0 <= j < s.len() implies #[trigger] s[j] != '\n' by {
            assert(p(s[j]));
        }
    }
}

proof fn lemma_trim_strip(l: Seq<char>)
    ensures
        trimmed(text::strip_cr(l)) == trimmed(l),
{
    if l.len() > 0 && l.last() == '\r' {
        let m = l.drop_last();
        text::lemma_run(l, spaces());
        text::lemma_run(m, spaces());
        let k = text::run(m, spaces()) as int;
        if k < m.len() {
            assert forall|i: int| 0 <= i < k implies spaces()(#[trigger] l[i]) by {
                assert(m[i] == l[i]);
            }
            assert(l[k] == m[k]);
            text::lemma_run_unique(l, spaces(), k);
            let a = l.skip(k);
            let b = m.skip(k);
            assert(a.drop_last() =~= b);
            assert(a.last() == '\r');
            assert(tail_run(a, spaces()) == 1 + tail_run(b, spaces()));
            text::lemma_tail_run(b, spaces());
            assert(trimmed(l) =~= trimmed(m));
        } else {
            assert forall|i: int| 0 <= i < l.len() implies spaces()(#[trigger] l[i]) by {
                if i < m.len() {
                    assert(m[i] == l[i]);
                }
            }
            text::lemma_run_unique(l, spaces(), l.len() as int);
            assert(l.skip(l.len() as int) =~= seq![]);
            assert(m.skip(k) =~= seq![]);
        }
    }
}

proof fn lemma_stripped_alike(lines: Seq<Seq<char>>)
    ensures
        alike(lines.map_values(|l: Seq<char>| text::strip_cr(l)), lines),
{
    let m = lines.map_values(|l: Seq<char>| text::strip_cr(l));
    assert forall|i: int| 0 <= i < m.len() implies trimmed(#[trigger] m[i]) == trimmed(
        lines[i],
    ) by {
        lemma_trim_strip(lines[i]);
    }
}

proof fn lemma_inside_alike(a: Seq<Seq<char>>, b: Seq<Seq<char>>)
    requires
        alike(a, b),
    ensures
        inside_after(a) == inside_after(b),
    decreases a.len(),
{
    if a.len() > 0 {
        assert(trimmed(a[a.len() - 1]) == trimmed(b[b.len() - 1]));
        assert forall|i: int| 0 <= i < a.drop_last().len() implies trimmed(
            #[trigger] a.drop_last()[i],
        ) == trimmed(b.drop_last()[i]) by {
            assert(trimmed(a[i]) == trimmed(b[i]));
        }
        lemma_inside_alike(a.drop_last(), b.drop_last());
    }
}

proof fn lemma_users_alike(a: Seq<Seq<char>>, b: Seq<Seq<char>>, i: int)
    requires
        alike(a, b),
        0 <= i < a.len(),
    ensures
        is_users(a, i) == is_users(b, i),
{
    assert(trimmed(a[i]) == trimmed(b[i]));
    assert forall|k: int| 0 <= k < a.take(i).len() implies trimmed(#[trigger] a.take(i)[k])
        == trimmed(b.take(i)[k]) by {
        assert(trimmed(a[k]) == trimmed(b[k]));
    }
    lemma_inside_alike(a.take(i), b.take(i));
}

proof fn lemma_foreign_alike(a: Seq<Seq<char>>, b: Seq<Seq<char>>)
    requires
        alike(a, b),
        foreign_table(a),
    ensures
        foreign_table(b),
{
    let i = choose|i: int|
        0 <= i < a.len() && #[trigger] is_users(a, i) && trimmed(a[i]) == SPACES_TABLE@;
    lemma_users_alike(a, b, i);
    assert(trimmed(a[i]) == trimmed(b[i]));
}

proof fn lemma_opening_alike(a: Seq<Seq<char>>, b: Seq<Seq<char>>)
    requires
        alike(a, b),
        has_opening(a),
    ensures
        has_opening(b),
{
    let i = choose|i: int| 0 <= i < a.len() && opens(#[trigger] a[i]);
    assert(trimmed(a[i]) == trimmed(b[i]));
    assert(opens(b[i]));
}

/// A line whose first character but white space is no number sign is no marker.
proof fn lemma_no_marker(l: Seq<char>, k: int)
    requires
        0 <= k < l.len(),
        forall|i: int| 0 <= i < k ==> is_space(#[trigger] l[i]),
        !is_space(l[k]),
        l[k] != '#',
    ensures
        !opens(l),
        !closes(l),
{
    assert forall|i: int| 0 <= i < k implies spaces()(#[trigger] l[i]) by {}
    text::lemma_run_unique(l, spaces(), k);
    let t = l.skip(k);
    text::lemma_tail_run(t, spaces());
    let n = tail_run(t, spaces()) as int;
    if n == t.len() {
        assert(spaces()(t[0]));
    }
    assert(trimmed(l)[0] == l[k]);
    reveal_strlit("# herdr-services:start");
    reveal_strlit("# herdr-services:end");
    assert(BLOCK_START@[0] == '#');
    assert(BLOCK_END@[0] == '#');
}

/// A line that starts and ends with ink is trimmed already.
proof fn lemma_trimmed_already(l: Seq<char>)
    requires
        l.len() > 0,
        !is_space(l[0]),
        !is_space(l.last()),
    ensures
        trimmed(l) == l,
{
    text::lemma_run_unique(l, spaces(), 0);
    assert(l.skip(0) =~= l);
    text::lemma_tail_run_unique(l, spaces(), 0);
    assert(l.take(l.len() as int) =~= l);
}

proof fn lemma_cell(i: int)
    requires
        0 <= i,
    ensures
        !opens(cell_of(i)),
        !closes(cell_of(i)),
        !cell_of(i).contains('\n'),
        cell_of(i).last() != '\r',
{
    let c = cell_of(i);
    reveal_strlit("  [{ token = \"$");
    reveal_strlit("svc_");
    reveal_strlit(
        "\", dim = true, rules = [{ starts_with = \"●\", dim = false, fg = \"#98c379\" }, { starts_with = \"◌\", dim = false, fg = \"#e06c75\" }] }],",
    );
    let head = "  [{ token = \"$"@;
    let d = decimal_of((i + 1) as nat);
    let tail = "\", dim = true, rules = [{ starts_with = \"●\", dim = false, fg = \"#98c379\" }, { starts_with = \"◌\", dim = false, fg = \"#e06c75\" }] }],"@;
    number::decimal_denotes_itself((i + 1) as nat);
    assert forall|j: int| 0 <= j < c.len() implies #[trigger] c[j] != '\n' by {
        if j < head.len() {
            assert(c[j] == head[j]);
        } else if j < head.len() + 4 {
            assert(c[j] == "svc_"@[j - head.len()]);
        } else if j < head.len() + 4 + d.len() {
            assert(c[j] == d[j - head.len() - 4]);
            assert(number::digit_of(d[j - head.len() - 4], 10) is Some);
        } else {
            assert(c[j] == tail[j - head.len() - 4 - d.len()]);
        }
    }
    assert(c[0] == head[0] && c[1] == head[1] && c[2] == head[2]);
    lemma_no_marker(c, 2);
    assert(c.last() == tail.last());
}

/// The lines of the block: the first opens it, the last closes it, none between
/// does either, and none holds a line break.
proof fn lemma_block(n: int)
    requires
        0 <= n,
    ensures
        block_lines(n).len() >= 2,
        opens(block_lines(n)[0]),
        closes(block_lines(n).last()),
        forall|k: int|
            0 < k < block_lines(n).len() - 1 ==> !opens(#[trigger] block_lines(n)[k]) && !closes(
                block_lines(n)[k],
            ),
        unbroken(block_lines(n)),
        block_lines(n).map_values(|l: Seq<char>| text::strip_cr(l)) == block_lines(n),
{
    let b = block_lines(n);
    reveal_strlit("# herdr-services:start");
    reveal_strlit("# herdr-services:end");
    reveal_strlit("[ui.sidebar.spaces]");
    reveal_strlit("row_gap = 0");
    reveal_strlit("rows = [");
    reveal_strlit("  [\"state_icon\", \"workspace\"],");
    reveal_strlit("  [\"branch\", \"git_status\"],");
    reveal_strlit("]");
    assert(b[0] == BLOCK_START@);
    assert(b.last() == BLOCK_END@);
    lemma_trimmed_already(BLOCK_START@);
    lemma_trimmed_already(BLOCK_END@);
    assert(BLOCK_START@.len() != BLOCK_END@.len());
    assert(b.len() == n + 8);
    assert forall|k: int| 0 < k < b.len() - 1 implies !opens(#[trigger] b[k]) && !closes(b[k])
        && !b[k].contains('\n') && b[k].last() != '\r' by {
        if k == 1 {
            assert(b[k] == SPACES_TABLE@);
            lemma_no_marker(b[k], 0);
        } else if k == 2 {
            assert(b[k] == "row_gap = 0"@);
            lemma_no_marker(b[k], 0);
        } else if k == 3 {
            assert(b[k] == "rows = ["@);
            lemma_no_marker(b[k], 0);
        } else if k == 4 {
            assert(b[k] == "  [\"state_icon\", \"workspace\"],"@);
            lemma_no_marker(b[k], 2);
        } else if k == 5 {
            assert(b[k] == "  [\"branch\", \"git_status\"],"@);
            lemma_no_marker(b[k], 2);
        } else if k < n + 6 {
            assert(b[k] == cell_of(k - 6));
            lemma_cell(k - 6);
        } else {
            assert(b[k] == "]"@);
            lemma_no_marker(b[k], 0);
        }
    }
    assert forall|k: int| 0 <= k < b.len() implies !(#[trigger] b[k]).contains('\n')
        && text::strip_cr(b[k]) == b[k] by {
        if k == 0 {
            assert(b[k] == BLOCK_START@);
        } else if k == b.len() - 1 {
            assert(b[k] == BLOCK_END@);
        } else {
            assert(!opens(b[k]));
        }
    }
    assert(b.map_values(|l: Seq<char>| text::strip_cr(l)) =~= b);
}

/// Behind any lines, no line of the block is the user's, and the block is
/// closed at its end.
proof fn lemma_block_behind(front: Seq<Seq<char>>, n: int, k: int)
    requires
        0 <= n,
        1 <= k < block_lines(n).len(),
    ensures
        inside_after(front + block_lines(n).take(k)),
        !inside_after(front + block_lines(n)),
    decreases k,
{
    lemma_block(n);
    let b = block_lines(n);
    let s = front + b.take(k);
    assert(s.last() == b[k - 1]);
    assert(s.drop_last() =~= front + b.take(k - 1));
    if k > 1 {
        lemma_block_behind(front, n, k - 1);
        assert(!opens(b[k - 1]));
    }
    assert((front + b).last() == b.last());
}

proof fn lemma_block_not_users(front: Seq<Seq<char>>, n: int, i: int)
    requires
        0 <= n,
        front.len() <= i < front.len() + block_lines(n).len(),
    ensures
        !is_users(front + block_lines(n), i),
{
    lemma_block(n);
    let b = block_lines(n);
    let k = i - front.len();
    assert((front + b)[i] == b[k]);
    assert((front + b).take(i) =~= front + b.take(k));
    if 0 < k {
        lemma_block_behind(front, n, k);
    }
}

proof fn lemma_foreign_front(front: Seq<Seq<char>>, rest: Seq<Seq<char>>, i: int)
    requires
        0 <= i < front.len(),
    ensures
        is_users(front + rest, i) == is_users(front, i),
{
    assert((front + rest).take(i) =~= front.take(i));
    assert((front + rest)[i] == front[i]);
}

proof fn lemma_foreign_with_block(front: Seq<Seq<char>>, n: int)
    requires
        0 <= n,
        foreign_table(front + block_lines(n)),
    ensures
        foreign_table(front),
{
    let s = front + block_lines(n);
    let i = choose|i: int|
        0 <= i < s.len() && #[trigger] is_users(s, i) && trimmed(s[i]) == SPACES_TABLE@;
    if i >= front.len() {
        lemma_block_not_users(front, n, i);
    } else {
        lemma_foreign_front(front, block_lines(n), i);
        assert(is_users(front, i) && s[i] == front[i]);
    }
}

proof fn lemma_with_block(lines: Seq<Seq<char>>, n: int)
    requires
        0 <= n,
    ensures
        !inside_after(with_block(lines, block_lines(n))),
        foreign_table(with_block(lines, block_lines(n))) ==> foreign_table(lines),
        has_opening(lines) ==> has_opening(with_block(lines, block_lines(n))),
        unbroken(lines) ==> unbroken(with_block(lines, block_lines(n))),
    decreases lines.len(),
{
    let b = block_lines(n);
    lemma_block(n);
    if lines.len() > 0 {
        let front = lines.drop_last();
        let l = lines.last();
        let w = with_block(front, b);
        let all = with_block(lines, b);
        lemma_with_block(front, n);
        assert(front + seq![l] =~= lines);
        if unbroken(lines) {
            assert forall|i: int| 0 <= i < front.len() implies !(#[trigger] front[i]).contains(
                '\n',
            ) by {
                assert(front[i] == lines[i]);
            }
            assert(!lines[lines.len() - 1].contains('\n'));
            assert forall|i: int| 0 <= i < all.len() implies !(#[trigger] all[i]).contains(
                '\n',
            ) by {
                if i < w.len() {
                    assert(all[i] == w[i]);
                } else if opens(l) {
                    assert(all[i] == b[i - w.len()]);
                }
            }
        }
        if foreign_table(w) {
            let i = choose|i: int|
                0 <= i < front.len() && #[trigger] is_users(front, i) && trimmed(front[i])
                    == SPACES_TABLE@;
            lemma_foreign_front(front, seq![l], i);
            assert(is_users(lines, i) && lines[i] == front[i]);
        }
        if opens(l) {
            lemma_block_behind(w, n, 1);
            if foreign_table(all) {
                lemma_foreign_with_block(w, n);
            }
            assert(all[w.len() as int] == b[0]);
            assert(opens(all[w.len() as int]));
        } else {
            if has_opening(lines) {
                let i = choose|i: int| 0 <= i < lines.len() && opens(#[trigger] lines[i]);
                assert(opens(front[i]));
                let j = choose|j: int| 0 <= j < w.len() && opens(#[trigger] w[j]);
                assert(all[j] == w[j]);
                assert(opens(all[j]));
            }
            if !closes(l) && !inside_after(front) {
                assert(all.drop_last() =~= w);
                assert(all.last() == l);
                if foreign_table(all) {
                    let i = choose|i: int|
                        0 <= i < all.len() && #[trigger] is_users(all, i) && trimmed(all[i])
                            == SPACES_TABLE@;
                    if i < w.len() {
                        assert(all =~= w + seq![l]);
                        lemma_foreign_front(w, seq![l], i);
                        assert(is_users(w, i) && w[i] == all[i]);
                    } else {
                        assert(lines.take(lines.len() - 1) =~= front);
                        assert(is_users(lines, lines.len() - 1));
                        assert(lines[lines.len() - 1] == l);
                    }
                }
            }
        }
    }
}

/// The lines of a text that was made ready for a block.
proof fn lemma_lines_spaced(s: Seq<char>)
    requires
        s.len() > 0,
    ensures
        spaced(s).last() == '\n',
        lines_of(spaced(s)).len() == lines_of(s).len() + 1,
        alike(lines_of(spaced(s)), lines_of(s).push(seq![])),
{
    let feed = seq!['\n'];
    let none = Seq::<char>::empty();
    lemma_line_first(none, none);
    assert(none.push('\n') + none =~= feed);
    assert(lines_of(feed) =~= seq![none]);
    if s.last() == '\n' {
        text::lemma_lines_add(s, feed);
        assert(spaced(s) =~= s + feed);
        assert(lines_of(s) + seq![none] =~= lines_of(s).push(none));
    } else {
        let t = s.push('\n');
        text::lemma_lines_add(t, feed);
        assert(spaced(s) =~= t + feed);
        lemma_lines_ended(s);
        assert(lines_of(spaced(s)) =~= lines_of(t).push(none));
        assert forall|i: int| 0 <= i < lines_of(spaced(s)).len() implies trimmed(
            #[trigger] lines_of(spaced(s))[i],
        ) == trimmed(lines_of(s).push(none)[i]) by {
            if i < lines_of(t).len() {
                assert(trimmed(lines_of(t)[i]) == trimmed(lines_of(s)[i]));
            }
        }
    }
}

/// Ending the last line of a text changes its lines at most in white space.
proof fn lemma_lines_ended(s: Seq<char>)
    requires
        s.len() > 0,
        s.last() != '\n',
    ensures
        alike(lines_of(s.push('\n')), lines_of(s)),
    decreases s.len(),
{
    let p = text::other_than('\n');
    text::lemma_run(s, p);
    let i = text::run(s, p) as int;
    let t = s.push('\n');
    assert forall|j: int| 0 <= j < i implies p(#[trigger] t[j]) by {
        assert(p(s[j]));
    }
    if i < s.len() {
        assert(t[i] == s[i]);
    }
    text::lemma_run_unique(t, p, i);
    assert(t.take(i) =~= s.take(i));
    if i < s.len() {
        let rest = s.skip(i + 1);
        if rest.len() == 0 {
            assert(s[s.len() - 1] == '\n');
        }
        assert(rest.last() == s.last());
        assert(t.skip(i + 1) =~= rest.push('\n'));
        lemma_lines_ended(rest);
        assert forall|k: int| 0 <= k < lines_of(t).len() implies trimmed(#[trigger] lines_of(t)[k])
            == trimmed(lines_of(s)[k]) by {
            if k > 0 {
                assert(lines_of(t)[k] == lines_of(rest.push('\n'))[k - 1]);
                assert(lines_of(s)[k] == lines_of(rest)[k - 1]);
                assert(trimmed(lines_of(rest.push('\n'))[k - 1]) == trimmed(
                    lines_of(rest)[k - 1],
                ));
            }
        }
    } else {
        let none = Seq::<char>::empty();
        assert(t.skip(i + 1) =~= none);
        assert(t.take(i) =~= s);
        assert(lines_of(none) =~= seq![]);
        assert(lines_of(t) =~= seq![text::strip_cr(s)]);
        assert(lines_of(s) =~= seq![s]);
        lemma_trim_strip(s);
    }
}

/// What is installed holds the block, and the user defines no table beside it.
pub proof fn an_installed_block_is_there_alone(s: Seq<char>, n: int)
    requires
        0 <= n,
        !foreign_table(lines_of(s)),
    ensures
        has_opening(lines_of(installed(s, n))),
        !foreign_table(lines_of(installed(s, n))),
{
    let b = block_lines(n);
    let lines = lines_of(s);
    let strip = |l: Seq<char>| text::strip_cr(l);
    let none = Seq::<char>::empty();
    lemma_block(n);
    if has_opening(lines) {
        let w = with_block(lines, b);
        lemma_lines_unbroken(s);
        lemma_with_block(lines, n);
        lemma_lines_of_text(w, none);
        assert(as_text(w) + none =~= as_text(w));
        assert(lines_of(none) =~= seq![]);
        assert(lines_of(as_text(w)) =~= w.map_values(strip));
        lemma_stripped_alike(w);
        let m = w.map_values(strip);
        assert(alike(w, m));
        lemma_opening_alike(w, m);
        if foreign_table(m) {
            lemma_foreign_alike(m, w);
        }
    } else {
        let front = lines_of(spaced(s));
        if s.len() > 0 {
            lemma_lines_spaced(s);
        }
        text::lemma_lines_add(spaced(s), as_text(b));
        lemma_lines_of_text(b, none);
        assert(as_text(b) + none =~= as_text(b));
        assert(lines_of(none) =~= seq![]);
        assert(lines_of(as_text(b)) =~= b);
        let all = front + b;
        assert(all[front.len() as int] == b[0]);
        assert(opens(all[front.len() as int]));
        if foreign_table(all) {
            lemma_foreign_with_block(front, n);
            if s.len() > 0 {
                let want = lines.push(none);
                lemma_foreign_alike(front, want);
                let i = choose|i: int|
                    0 <= i < want.len() && #[trigger] is_users(want, i) && trimmed(want[i])
                        == SPACES_TABLE@;
                if i < lines.len() {
                    assert(want =~= lines + seq![none]);
                    lemma_foreign_front(lines, seq![none], i);
                    assert(is_users(lines, i));
                } else {
                    lemma_trim_shrinks(none);
                    reveal_strlit("[ui.sidebar.spaces]");
                }
            }
        }
    }
}

/// A line feed follows no carriage return.
pub open spec fn no_returns(s: Seq<char>) -> bool {
    forall|i: int| 0 < i < s.len() && #[trigger] s[i] == '\n' ==> s[i - 1] != '\r'
}

/// No line of `s` is a marker of the block.
pub open spec fn unmarked(s: Seq<char>) -> bool {
    forall|i: int|
        0 <= i < lines_of(s).len() ==> !opens(#[trigger] lines_of(s)[i]) && !closes(lines_of(s)[i])
}

proof fn lemma_text_of_lines(s: Seq<char>)
    requires
        s.len() == 0 || s.last() == '\n',
        no_returns(s),
    ensures
        as_text(lines_of(s)) == s,
    decreases s.len(),
{
    if s.len() > 0 {
        let p = text::other_than('\n');
        text::lemma_run(s, p);
        let i = text::run(s, p) as int;
        if i == s.len() {
            assert(p(s[s.len() - 1]));
        }
        let rest = s.skip(i + 1);
        assert(rest.len() > 0 ==> rest.last() == '\n');
        assert(no_returns(rest)) by {
            assert forall|k: int| 0 < k < rest.len() && #[trigger] rest[k] == '\n' implies rest[k
                - 1] != '\r' by {
                assert(s[i + 1 + k] == '\n');
            }
        }
        lemma_text_of_lines(rest);
        let a = s.take(i);
        assert(s[i] == '\n');
        assert(text::strip_cr(a) == a);
        lemma_as_text_add(seq![a], lines_of(rest));
        assert(as_text(seq![a]) =~= a.push('\n')) by {
            reveal_with_fuel(as_text, 2);
            assert(seq![a].drop_last() =~= seq![]);
            assert(seq![a].last() == a);
        }
        assert(s =~= a.push('\n') + rest);
    }
}

proof fn lemma_no_inside(lines: Seq<Seq<char>>)
    requires
        forall|i: int| 0 <= i < lines.len() ==> !opens(#[trigger] lines[i]) && !closes(lines[i]),
    ensures
        !inside_after(lines),
        users_lines(lines) == lines,
        forall|b: Seq<Seq<char>>| #[trigger] with_block(lines, b) == lines,
    decreases lines.len(),
{
    if lines.len() > 0 {
        let front = lines.drop_last();
        assert forall|i: int| 0 <= i < front.len() implies !opens(#[trigger] front[i]) && !closes(
            front[i],
        ) by {
            assert(front[i] == lines[i]);
        }
        lemma_no_inside(front);
        assert(!opens(lines[lines.len() - 1]));
        assert(front.push(lines.last()) =~= lines);
        assert forall|b: Seq<Seq<char>>| #[trigger] with_block(lines, b) == lines by {
            assert(with_block(front, b) == front);
        }
    }
}

proof fn lemma_block_dropped(front: Seq<Seq<char>>, n: int, other: Seq<Seq<char>>, k: int)
    requires
        0 <= n,
        1 <= k <= block_lines(n).len(),
    ensures
        users_lines(front + block_lines(n).take(k)) == users_lines(front),
        with_block(front + block_lines(n).take(k), other) == with_block(front, other) + other,
    decreases k,
{
    lemma_block(n);
    let b = block_lines(n);
    let s = front + b.take(k);
    assert(s.last() == b[k - 1]);
    assert(s.drop_last() =~= front + b.take(k - 1));
    if k > 1 {
        lemma_block_dropped(front, n, other, k - 1);
        lemma_block_behind(front, n, k - 1);
        if k < b.len() {
            assert(!opens(b[k - 1]));
        }
    } else {
        assert(front + b.take(0) =~= front);
    }
}

proof fn lemma_installed_lines(s: Seq<char>, n: int)
    requires
        0 <= n,
        unmarked(s),
    ensures
        !has_opening(lines_of(s)),
        has_opening(lines_of(installed(s, n))),
        lines_of(installed(s, n)) == lines_of(spaced(s)) + block_lines(n),
        forall|i: int|
            0 <= i < lines_of(spaced(s)).len() ==> !opens(#[trigger] lines_of(spaced(s))[i])
                && !closes(lines_of(spaced(s))[i]),
{
    let b = block_lines(n);
    let none = Seq::<char>::empty();
    let front = lines_of(spaced(s));
    lemma_block(n);
    if has_opening(lines_of(s)) {
        let i = choose|i: int| 0 <= i < lines_of(s).len() && opens(#[trigger] lines_of(s)[i]);
        assert(!opens(lines_of(s)[i]));
    }
    if s.len() > 0 {
        lemma_lines_spaced(s);
    }
    text::lemma_lines_add(spaced(s), as_text(b));
    lemma_lines_of_text(b, none);
    assert(as_text(b) + none =~= as_text(b));
    assert(lines_of(none) =~= seq![]);
    assert(lines_of(as_text(b)) =~= b);
    let all = front + b;
    assert(all[front.len() as int] == b[0]);
    assert(opens(all[front.len() as int]));
    assert forall|i: int| 0 <= i < front.len() implies !opens(#[trigger] front[i]) && !closes(
        front[i],
    ) by {
        if s.len() > 0 {
            let want = lines_of(s).push(none);
            assert(trimmed(front[i]) == trimmed(want[i]));
            if i < lines_of(s).len() {
                assert(!opens(lines_of(s)[i]) && !closes(lines_of(s)[i]));
            } else {
                lemma_trim_shrinks(none);
                reveal_strlit("# herdr-services:start");
                reveal_strlit("# herdr-services:end");
            }
        }
    }
}

/// Removing the block undoes installing it, for a configuration without marker
/// lines whose last line is ended by exactly one line feed and no line by a
/// carriage return.
pub proof fn removing_undoes_installing(s: Seq<char>, n: int)
    requires
        0 <= n,
        unmarked(s),
        no_returns(s),
        s.len() > 0 ==> tail_run(s, feeds()) == 1,
    ensures
        removed(installed(s, n)) == s,
{
    let b = block_lines(n);
    let front = lines_of(spaced(s));
    lemma_block(n);
    lemma_installed_lines(s, n);
    lemma_no_inside(front);
    lemma_block_dropped(front, n, seq![], b.len() as int);
    assert(b.take(b.len() as int) =~= b);
    if s.len() > 0 {
        text::lemma_tail_run(s, feeds());
        assert(s[s.len() - 1] == '\n');
        let t = spaced(s);
        assert(no_returns(t)) by {
            assert forall|i: int| 0 < i < t.len() && #[trigger] t[i] == '\n' implies t[i - 1]
                != '\r' by {
                if i < s.len() {
                    assert(s[i] == '\n');
                }
            }
        }
        lemma_text_of_lines(t);
        assert(t.drop_last() =~= s);
        assert(tail_run(t, feeds()) == 2);
        assert(t.take(t.len() - 2 + 1) =~= s);
    } else {
        assert(front =~= seq![]);
    }
}

proof fn lemma_installed_twice(s: Seq<char>, n: int, m: int)
    requires
        0 <= n,
        0 <= m,
        unmarked(s),
        no_returns(s),
        s.len() > 0 ==> s.last() != '\r',
    ensures
        installed(installed(s, n), m) == installed(s, m),
{
    let b = block_lines(n);
    let front = lines_of(spaced(s));
    lemma_block(n);
    lemma_installed_lines(s, n);
    lemma_installed_lines(s, m);
    lemma_no_inside(front);
    lemma_block_dropped(front, n, block_lines(m), b.len() as int);
    assert(b.take(b.len() as int) =~= b);
    assert(with_block(front, block_lines(m)) == front);
    lemma_as_text_add(front, block_lines(m));
    let t = spaced(s);
    assert(no_returns(t)) by {
        assert forall|i: int| 0 < i < t.len() && #[trigger] t[i] == '\n' implies t[i - 1]
            != '\r' by {
            if i < s.len() {
                assert(s[i] == '\n');
            }
        }
    }
    lemma_text_of_lines(t);
}

proof fn lemma_users_unmarked(lines: Seq<Seq<char>>)
    ensures
        forall|i: int| 0 <= i < users_lines(lines).len() ==> !opens(#[trigger] users_lines(lines)[i]),
        unbroken(lines) ==> unbroken(users_lines(lines)),
    decreases lines.len(),
{
    if lines.len() > 0 {
        let front = lines.drop_last();
        let u = users_lines(front);
        let all = users_lines(lines);
        lemma_users_unmarked(front);
        assert forall|i: int| 0 <= i < all.len() implies !opens(#[trigger] all[i]) by {
            if i < u.len() {
                assert(all[i] == u[i]);
            }
        }
        if unbroken(lines) {
            assert forall|i: int| 0 <= i < front.len() implies !(#[trigger] front[i]).contains(
                '\n',
            ) by {
                assert(front[i] == lines[i]);
            }
            assert(!lines[lines.len() - 1].contains('\n'));
            assert forall|i: int| 0 <= i < all.len() implies !(#[trigger] all[i]).contains(
                '\n',
            ) by {
                if i < u.len() {
                    assert(all[i] == u[i]);
                }
            }
        }
    }
}

/// Cutting line feeds off the end of a text drops empty lines.
proof fn lemma_one_feed(lines: Seq<Seq<char>>) -> (k: int)
    requires
        unbroken(lines),
    ensures
        0 <= k <= lines.len(),
        one_feed(as_text(lines)) == as_text(lines.take(k)),
    decreases lines.len(),
{
    let s = as_text(lines);
    assert(lines.take(lines.len() as int) =~= lines);
    text::lemma_tail_run(s, feeds());
    if tail_run(s, feeds()) <= 1 {
        lines.len() as int
    } else {
        let front = lines.drop_last();
        let l = lines.last();
        let f = as_text(front);
        assert(s.drop_last() =~= f + l);
        assert(s.last() == '\n');
        assert(tail_run(s, feeds()) == 1 + tail_run(f + l, feeds()));
        if l.len() > 0 {
            assert(!lines[lines.len() - 1].contains('\n'));
            assert((f + l).last() == l.last());
            assert(l.contains(l.last()));
            assert(false);
        }
        assert(f + l =~= f);
        assert(unbroken(front)) by {
            assert forall|i: int| 0 <= i < front.len() implies !(#[trigger] front[i]).contains(
                '\n',
            ) by {
                assert(front[i] == lines[i]);
            }
        }
        let k = lemma_one_feed(front);
        text::lemma_tail_run(f, feeds());
        assert(front.take(k) =~= lines.take(k));
        assert(one_feed(s) =~= one_feed(f)) by {
            let n = tail_run(f, feeds());
            assert(s.take(s.len() - (n + 1) + 1) =~= f.take(f.len() - n + 1)) by {
                assert(s =~= f.push('\n'));
            }
            if n <= 1 {
                assert(f.take(f.len() - n + 1) =~= f);
            }
        }
        k
    }
}

/// After removing, no block is left.
pub proof fn removing_leaves_no_block(s: Seq<char>)
    ensures
        !has_opening(lines_of(removed(s))),
{
    let lines = lines_of(s);
    if has_opening(lines) {
        let none = Seq::<char>::empty();
        let u = users_lines(lines);
        lemma_lines_unbroken(s);
        lemma_users_unmarked(lines);
        let k = lemma_one_feed(u);
        let p = u.take(k);
        assert(unbroken(p)) by {
            assert forall|i: int| 0 <= i < p.len() implies !(#[trigger] p[i]).contains('\n') by {
                assert(p[i] == u[i]);
            }
        }
        lemma_lines_of_text(p, none);
        assert(as_text(p) + none =~= as_text(p));
        assert(lines_of(none) =~= seq![]);
        let m = p.map_values(|l: Seq<char>| text::strip_cr(l));
        assert(lines_of(as_text(p)) =~= m);
        lemma_stripped_alike(p);
        if has_opening(m) {
            lemma_opening_alike(m, p);
            let i = choose|i: int| 0 <= i < p.len() && opens(#[trigger] p[i]);
            assert(!opens(u[i]));
        }
    }
}

/// No line ends with a carriage return.
pub open spec fn bare(lines: Seq<Seq<char>>) -> bool {
    forall|i: int| 0 <= i < lines.len() ==> text::strip_cr(#[trigger] lines[i]) == lines[i]
}

proof fn lemma_refreshed(lines: Seq<Seq<char>>, n: int, m: int)
    requires
        0 <= n,
        0 <= m,
    ensures
        users_lines(with_block(lines, block_lines(n))) == users_lines(lines),
        with_block(with_block(lines, block_lines(n)), block_lines(m)) == with_block(
            lines,
            block_lines(m),
        ),
        bare(users_lines(lines)) ==> bare(with_block(lines, block_lines(n))),
    decreases lines.len(),
{
    let b = block_lines(n);
    lemma_block(n);
    if lines.len() > 0 {
        let front = lines.drop_last();
        let l = lines.last();
        let w = with_block(front, b);
        let all = with_block(lines, b);
        lemma_refreshed(front, n, m);
        lemma_with_block(front, n);
        if bare(users_lines(lines)) {
            let u = users_lines(lines);
            assert(bare(users_lines(front))) by {
                assert forall|i: int| 0 <= i < users_lines(front).len() implies text::strip_cr(
                    #[trigger] users_lines(front)[i],
                ) == users_lines(front)[i] by {
                    assert(users_lines(front)[i] == u[i]);
                }
            }
            assert forall|i: int| 0 <= i < all.len() implies text::strip_cr(#[trigger] all[i])
                == all[i] by {
                if i < w.len() {
                    assert(all[i] == w[i]);
                } else if opens(l) {
                    assert(all[i] == b[i - w.len()]);
                    assert(b.map_values(|l: Seq<char>| text::strip_cr(l))[i - w.len()]
                        == text::strip_cr(b[i - w.len()]));
                } else {
                    assert(all[i] == u[u.len() - 1]);
                }
            }
        }
        if opens(l) {
            lemma_block_dropped(w, n, block_lines(m), b.len() as int);
            assert(b.take(b.len() as int) =~= b);
        } else if !closes(l) && !inside_after(front) {
            assert(all.drop_last() =~= w);
            assert(all.last() == l);
        }
    }
}

proof fn lemma_refreshed_lines(s: Seq<char>, n: int)
    requires
        0 <= n,
        has_opening(lines_of(s)),
        bare(users_lines(lines_of(s))),
    ensures
        lines_of(installed(s, n)) == with_block(lines_of(s), block_lines(n)),
        has_opening(lines_of(installed(s, n))),
{
    let none = Seq::<char>::empty();
    let w = with_block(lines_of(s), block_lines(n));
    lemma_refreshed(lines_of(s), n, n);
    lemma_lines_unbroken(s);
    lemma_with_block(lines_of(s), n);
    lemma_lines_of_text(w, none);
    assert(as_text(w) + none =~= as_text(w));
    assert(lines_of(none) =~= seq![]);
    assert(w.map_values(|l: Seq<char>| text::strip_cr(l)) =~= w);
    assert(lines_of(as_text(w)) =~= w);
}

/// Refreshing the block leaves every line of the user as it is, for a
/// configuration whose lines end with at most one carriage return.
pub proof fn refreshing_keeps_the_users_lines(s: Seq<char>, n: int)
    requires
        0 <= n,
        has_opening(lines_of(s)),
        bare(users_lines(lines_of(s))),
    ensures
        users_lines(lines_of(installed(s, n))) == users_lines(lines_of(s)),
{
    lemma_refreshed(lines_of(s), n, n);
    lemma_refreshed_lines(s, n);
}

/// How many lines open a managed block.
pub open spec fn openings(lines: Seq<Seq<char>>) -> nat
    decreases lines.len(),
{
    if lines.len() == 0 {
        0
    } else if opens(lines.last()) {
        openings(lines.drop_last()) + 1
    } else {
        openings(lines.drop_last())
    }
}

proof fn lemma_openings(lines: Seq<Seq<char>>)
    ensures
        has_opening(lines) <==> openings(lines) > 0,
    decreases lines.len(),
{
    if lines.len() > 0 {
        let front = lines.drop_last();
        lemma_openings(front);
        if opens(lines.last()) {
            assert(opens(lines[lines.len() - 1]));
        }
        if has_opening(front) {
            let i = choose|i: int| 0 <= i < front.len() && opens(#[trigger] front[i]);
            assert(opens(lines[i]));
        }
        if has_opening(lines) && !opens(lines.last()) {
            let i = choose|i: int| 0 <= i < lines.len() && opens(#[trigger] lines[i]);
            assert(opens(front[i]));
        }
    }
}

proof fn lemma_openings_alike(a: Seq<Seq<char>>, b: Seq<Seq<char>>)
    requires
        alike(a, b),
    ensures
        openings(a) == openings(b),
    decreases a.len(),
{
    if a.len() > 0 {
        assert(trimmed(a[a.len() - 1]) == trimmed(b[b.len() - 1]));
        assert forall|i: int| 0 <= i < a.drop_last().len() implies trimmed(
            #[trigger] a.drop_last()[i],
        ) == trimmed(b.drop_last()[i]) by {
            assert(trimmed(a[i]) == trimmed(b[i]));
        }
        lemma_openings_alike(a.drop_last(), b.drop_last());
    }
}

/// A block behind other lines opens once.
proof fn lemma_block_opens_once(front: Seq<Seq<char>>, n: int, k: int)
    requires
        0 <= n,
        1 <= k <= block_lines(n).len(),
    ensures
        openings(front + block_lines(n).take(k)) == openings(front) + 1,
    decreases k,
{
    lemma_block(n);
    let b = block_lines(n);
    let s = front + b.take(k);
    assert(s.last() == b[k - 1]);
    assert(s.drop_last() =~= front + b.take(k - 1));
    if k > 1 {
        lemma_block_opens_once(front, n, k - 1);
        if k < b.len() {
            assert(!opens(b[k - 1]));
        }
    } else {
        assert(front + b.take(0) =~= front);
    }
}

proof fn lemma_with_block_opens(lines: Seq<Seq<char>>, n: int)
    requires
        0 <= n,
    ensures
        openings(with_block(lines, block_lines(n))) == openings(lines),
    decreases lines.len(),
{
    let b = block_lines(n);
    if lines.len() > 0 {
        let front = lines.drop_last();
        let l = lines.last();
        let w = with_block(front, b);
        lemma_with_block_opens(front, n);
        lemma_block(n);
        if opens(l) {
            lemma_block_opens_once(w, n, b.len() as int);
            assert(b.take(b.len() as int) =~= b);
        } else if !closes(l) && !inside_after(front) {
            assert(w.push(l).drop_last() =~= w);
        }
    }
}

/// What is installed opens as many blocks as there were before, and one where
/// there was none: a configuration never gets a second block.
pub proof fn an_installed_block_opens_once(s: Seq<char>, n: int)
    requires
        0 <= n,
    ensures
        openings(lines_of(installed(s, n))) == if openings(lines_of(s)) == 0 {
            1
        } else {
            openings(lines_of(s))
        },
{
    let b = block_lines(n);
    let lines = lines_of(s);
    let none = Seq::<char>::empty();
    lemma_block(n);
    lemma_openings(lines);
    if has_opening(lines) {
        let w = with_block(lines, b);
        let m = w.map_values(|l: Seq<char>| text::strip_cr(l));
        lemma_lines_unbroken(s);
        lemma_with_block(lines, n);
        lemma_with_block_opens(lines, n);
        lemma_lines_of_text(w, none);
        assert(as_text(w) + none =~= as_text(w));
        assert(lines_of(none) =~= seq![]);
        assert(lines_of(as_text(w)) =~= m);
        lemma_stripped_alike(w);
        lemma_openings_alike(m, w);
    } else {
        let front = lines_of(spaced(s));
        if s.len() > 0 {
            let want = lines.push(none);
            lemma_lines_spaced(s);
            lemma_openings_alike(front, want);
            assert(want.drop_last() =~= lines);
            lemma_trim_shrinks(none);
            reveal_strlit("# herdr-services:start");
        }
        text::lemma_lines_add(spaced(s), as_text(b));
        lemma_lines_of_text(b, none);
        assert(as_text(b) + none =~= as_text(b));
        assert(lines_of(none) =~= seq![]);
        assert(lines_of(as_text(b)) =~= b);
        lemma_block_opens_once(front, n, b.len() as int);
        assert(b.take(b.len() as int) =~= b);
    }
}

/// What a layout writes for the token of row `i`.
pub open spec fn reference_to(i: int) -> Seq<char> {
    "$"@ + key_of(i)
}

proof fn lemma_reference(i: int)
    requires
        0 <= i,
    ensures
        reference_to(i).len() > 5,
        reference_to(i)[0] == '$',
        !reference_to(i).contains('\n'),
{
    reveal_strlit("$");
    reveal_strlit("svc_");
    let d = decimal_of((i + 1) as nat);
    let r = reference_to(i);
    number::decimal_denotes_itself((i + 1) as nat);
    assert forall|j: int| 0 <= j < r.len() implies #[trigger] r[j] != '\n' by {
        if j == 0 {
            assert(r[j] == "$"@[0]);
        } else if j < 5 {
            assert(r[j] == "svc_"@[j - 1]);
        } else {
            assert(r[j] == d[j - 5]);
            assert(number::digit_of(d[j - 5], 10) is Some);
        }
    }
}

/// The cell of row `i` refers to its token, and to none of a later row.
proof fn lemma_cell_refers(i: int, k: int)
    requires
        0 <= i,
        0 <= k,
    ensures
        i == k ==> contains_text(cell_of(i), reference_to(k)),
        i < k ==> !contains_text(cell_of(i), reference_to(k)),
{
    let c = cell_of(i);
    let r = reference_to(k);
    reveal_strlit("$");
    reveal_strlit("  [{ token = \"$");
    reveal_strlit("svc_");
    reveal_strlit(
        "\", dim = true, rules = [{ starts_with = \"●\", dim = false, fg = \"#98c379\" }, { starts_with = \"◌\", dim = false, fg = \"#e06c75\" }] }],",
    );
    let head = "  [{ token = \"$"@;
    let d = decimal_of((i + 1) as nat);
    let e = decimal_of((k + 1) as nat);
    let tail = "\", dim = true, rules = [{ starts_with = \"●\", dim = false, fg = \"#98c379\" }, { starts_with = \"◌\", dim = false, fg = \"#e06c75\" }] }],"@;
    let at = head.len() - 1;
    number::decimal_denotes_itself((i + 1) as nat);
    number::decimal_denotes_itself((k + 1) as nat);
    if i == k {
        assert(c.subrange(at, at + r.len()) =~= r);
        assert(text::occurs_at(c, r, at));
    }
    if i < k && contains_text(c, r) {
        let p = choose|p: int| text::occurs_at(c, r, p);
        assert(c.subrange(p, p + r.len())[0] == c[p]);
        assert(c[p] == '$');
        if p < head.len() {
            assert(c[p] == head[p]);
        } else if p < head.len() + 4 {
            assert(c[p] == "svc_"@[p - head.len()]);
        } else if p < head.len() + 4 + d.len() {
            assert(c[p] == d[p - head.len() - 4]);
            assert(number::digit_of(d[p - head.len() - 4], 10) is Some);
        } else {
            assert(c[p] == tail[p - head.len() - 4 - d.len()]);
        }
        assert(p == at);
        assert forall|x: int| 0 <= x < e.len() implies #[trigger] e[x] == c[at + 5 + x] by {
            assert(r[5 + x] == e[x]);
            assert(c.subrange(p, p + r.len())[5 + x] == c[at + 5 + x]);
        }
        if e.len() > d.len() {
            assert(e[d.len() as int] == tail[0]);
            assert(number::digit_of(e[d.len() as int], 10) is Some);
        } else {
            assert(e =~= d.take(e.len() as int)) by {
                assert forall|x: int| 0 <= x < e.len() implies e[x] == #[trigger] d[x] by {
                    assert(e[x] == c[at + 5 + x]);
                }
            }
            number::lemma_value_bound(d, 10, e.len() as int);
        }
    }
}

/// A text without a dollar sign refers to no token.
proof fn lemma_no_reference(l: Seq<char>, k: int)
    requires
        0 <= k,
        forall|j: int| 0 <= j < l.len() ==> #[trigger] l[j] != '$',
    ensures
        !contains_text(l, reference_to(k)),
{
    let r = reference_to(k);
    lemma_reference(k);
    if contains_text(l, r) {
        let p = choose|p: int| text::occurs_at(l, r, p);
        assert(l.subrange(p, p + r.len())[0] == l[p]);
    }
}

proof fn lemma_block_refers(n: int, k: int, i: int)
    requires
        0 <= n <= k,
        0 <= i < block_lines(n).len(),
    ensures
        !contains_text(block_lines(n)[i], reference_to(k)),
{
    let l = block_lines(n)[i];
    reveal_strlit("# herdr-services:start");
    reveal_strlit("# herdr-services:end");
    reveal_strlit("[ui.sidebar.spaces]");
    reveal_strlit("row_gap = 0");
    reveal_strlit("rows = [");
    reveal_strlit("  [\"state_icon\", \"workspace\"],");
    reveal_strlit("  [\"branch\", \"git_status\"],");
    reveal_strlit("]");
    assert(block_lines(n).len() == n + 8);
    if 6 <= i < n + 6 {
        assert(l == cell_of(i - 6));
        lemma_cell_refers(i - 6, k);
    } else {
        if i == 0 {
            assert(l == BLOCK_START@);
        } else if i == 1 {
            assert(l == SPACES_TABLE@);
        } else if i == 2 {
            assert(l == "row_gap = 0"@);
        } else if i == 3 {
            assert(l == "rows = ["@);
        } else if i == 4 {
            assert(l == "  [\"state_icon\", \"workspace\"],"@);
        } else if i == 5 {
            assert(l == "  [\"branch\", \"git_status\"],"@);
        } else if i == n + 6 {
            assert(l == "]"@);
        } else {
            assert(l == BLOCK_END@);
        }
        lemma_no_reference(l, k);
    }
}

/// What stands in one of the lines stands in their text, and what stands in the
/// text, on one line, stands in one of the lines.
proof fn lemma_contains_lines(lines: Seq<Seq<char>>, pat: Seq<char>)
    requires
        pat.len() > 0,
        !pat.contains('\n'),
    ensures
        contains_text(as_text(lines), pat) <==> exists|i: int|
            0 <= i < lines.len() && contains_text(#[trigger] lines[i], pat),
    decreases lines.len(),
{
    if lines.len() == 0 {
        if contains_text(as_text(lines), pat) {
            let p = choose|p: int| text::occurs_at(as_text(lines), pat, p);
        }
    } else {
        let front = lines.drop_last();
        let l = lines.last();
        let t = as_text(front);
        let feed = seq!['\n'];
        lemma_contains_lines(front, pat);
        lemma_ends_with_feed(front);
        assert(l.push('\n') =~= l + feed);
        text::lemma_contains_add(t, l + feed, pat);
        text::lemma_contains_add(l, feed, pat);
        if contains_text(as_text(lines), pat) {
            text::lemma_contains_split(t, l + feed, pat);
            if contains_text(t, pat) {
                let i = choose|i: int|
                    0 <= i < front.len() && contains_text(#[trigger] front[i], pat);
                assert(contains_text(lines[i], pat));
            } else {
                let p = choose|p: int| text::occurs_at(l + feed, pat, p);
                if p + pat.len() > l.len() {
                    let x = l.len() - p;
                    assert((l + feed).subrange(p, p + pat.len())[x] == '\n');
                    assert(pat[x] == '\n');
                }
                assert(l.subrange(p, p + pat.len()) =~= (l + feed).subrange(p, p + pat.len()));
                assert(text::occurs_at(l, pat, p));
                assert(contains_text(lines[lines.len() - 1], pat));
            }
        }
        if exists|i: int| 0 <= i < lines.len() && contains_text(#[trigger] lines[i], pat) {
            let i = choose|i: int| 0 <= i < lines.len() && contains_text(#[trigger] lines[i], pat);
            if i < front.len() {
                assert(contains_text(front[i], pat));
            }
        }
    }
}

proof fn lemma_ends_with_feed(lines: Seq<Seq<char>>)
    ensures
        as_text(lines).len() == 0 || as_text(lines).last() == '\n',
{
}

/// A line of a refreshed configuration is one of the block or one of before.
proof fn lemma_with_block_lines(lines: Seq<Seq<char>>, block: Seq<Seq<char>>, i: int)
    requires
        0 <= i < with_block(lines, block).len(),
    ensures
        block.contains(with_block(lines, block)[i]) || lines.contains(with_block(lines, block)[i]),
    decreases lines.len(),
{
    if lines.len() > 0 {
        let front = lines.drop_last();
        let w = with_block(front, block);
        let all = with_block(lines, block);
        if i < w.len() {
            lemma_with_block_lines(front, block, i);
            assert(all[i] == w[i]);
            if front.contains(w[i]) {
                let j = choose|j: int| 0 <= j < front.len() && front[j] == w[i];
                assert(lines[j] == w[i]);
            }
        } else if opens(lines.last()) {
            assert(all[i] == block[i - w.len()]);
        } else {
            assert(all[i] == lines[lines.len() - 1]);
        }
    }
}

/// A configuration that has a block has the new one in it.
proof fn lemma_with_block_has(lines: Seq<Seq<char>>, block: Seq<Seq<char>>, l: Seq<char>)
    requires
        has_opening(lines),
        block.contains(l),
    ensures
        with_block(lines, block).contains(l),
    decreases lines.len(),
{
    let front = lines.drop_last();
    let w = with_block(front, block);
    let all = with_block(lines, block);
    let j = choose|j: int| 0 <= j < block.len() && block[j] == l;
    if opens(lines.last()) {
        assert(all[w.len() + j] == l);
    } else {
        let i = choose|i: int| 0 <= i < lines.len() && opens(#[trigger] lines[i]);
        assert(opens(front[i]));
        lemma_with_block_has(front, block, l);
        let k = choose|k: int| 0 <= k < w.len() && w[k] == l;
        assert(all[k] == l);
    }
}

/// What is installed for `n` rows refers to the token of each of them, and to
/// no later token that the configuration did not refer to before.
pub proof fn an_installed_block_refers_to_its_rows(s: Seq<char>, n: int, k: int)
    requires
        0 <= n,
        0 <= k,
    ensures
        k < n ==> contains_text(installed(s, n), reference_to(k)),
        n <= k && !contains_text(s, reference_to(k)) ==> !contains_text(
            installed(s, n),
            reference_to(k),
        ),
{
    let b = block_lines(n);
    let r = reference_to(k);
    let lines = lines_of(s);
    let w = with_block(lines, b);
    lemma_reference(k);
    lemma_contains_lines(b, r);
    if k < n {
        assert(b[k + 6] == cell_of(k));
        lemma_cell_refers(k, k);
        assert(contains_text(b[k + 6], r));
        if has_opening(lines) {
            lemma_with_block_has(lines, b, b[k + 6]);
            let i = choose|i: int| 0 <= i < w.len() && w[i] == b[k + 6];
            assert(contains_text(w[i], r));
            lemma_contains_lines(w, r);
        } else {
            text::lemma_contains_add(spaced(s), as_text(b), r);
        }
    } else if contains_text(installed(s, n), r) && !contains_text(s, r) {
        assert forall|i: int| 0 <= i < b.len() implies !contains_text(#[trigger] b[i], r) by {
            lemma_block_refers(n, k, i);
        }
        if has_opening(lines) {
            lemma_contains_lines(w, r);
            let i = choose|i: int| 0 <= i < w.len() && contains_text(#[trigger] w[i], r);
            lemma_with_block_lines(lines, b, i);
            if b.contains(w[i]) {
                let j = choose|j: int| 0 <= j < b.len() && b[j] == w[i];
                assert(!contains_text(b[j], r));
            } else {
                let j = choose|j: int| 0 <= j < lines.len() && lines[j] == w[i];
                text::lemma_line_within(s, j);
                text::lemma_contains_within(s, lines[j], r);
            }
        } else {
            text::lemma_contains_split(spaced(s), as_text(b), r);
            let p = choose|p: int| text::occurs_at(spaced(s), r, p);
            if p + r.len() > s.len() {
                let x = if p < s.len() {
                    s.len() - p
                } else {
                    0
                };
                assert(spaced(s).subrange(p, p + r.len())[x] == '\n');
                assert(r[x] == '\n');
            }
            assert(s.subrange(p, p + r.len()) =~= spaced(s).subrange(p, p + r.len()));
            assert(text::occurs_at(s, r, p));
        }
    }
}

/// Installing again puts the new block in the place of the old one: for a
/// configuration that has a block and whose lines end with at most one carriage
/// return, and for one without marker lines and carriage returns. It is never
/// refused, and leaves one block where there was at most one before.
pub proof fn installing_again_replaces_the_block(s: Seq<char>, n: int, m: int)
    requires
        0 <= n,
        0 <= m,
        !foreign_table(lines_of(s)),
        if has_opening(lines_of(s)) {
            bare(users_lines(lines_of(s)))
        } else {
            unmarked(s) && no_returns(s) && (s.len() > 0 ==> s.last() != '\r')
        },
    ensures
        !foreign_table(lines_of(installed(s, n))),
        installed(installed(s, n), m) == installed(s, m),
        openings(lines_of(s)) <= 1 ==> openings(lines_of(installed(installed(s, n), m))) == 1,
{
    an_installed_block_is_there_alone(s, n);
    an_installed_block_opens_once(s, m);
    if has_opening(lines_of(s)) {
        lemma_refreshed(lines_of(s), n, m);
        lemma_refreshed_lines(s, n);
    } else {
        lemma_installed_twice(s, n, m);
    }
}

/// A report names no more keys than the longer of the two lists has rows.
pub proof fn a_report_names_few_keys(previous: Seq<Seq<char>>, rows: Seq<Seq<char>>, limit: int)
    requires
        previous.len() <= limit,
        rows.len() <= limit,
    ensures
        tokens_of(rows).len() + keys_between(rows.len() as int, previous.len() as int).len()
            <= limit,
{
}

// ---------------------------------------------------------------------------
// What a row says
// ---------------------------------------------------------------------------

/// `l` holds nothing but white space.
pub open spec fn is_blank(l: Seq<char>) -> bool {
    forall|i: int| 0 <= i < l.len() ==> is_space(#[trigger] l[i])
}

proof fn lemma_blank(l: Seq<char>)
    ensures
        is_blank(l) <==> trimmed(l).len() == 0,
{
    text::lemma_run(l, spaces());
    let k = text::run(l, spaces()) as int;
    let t = l.skip(k);
    text::lemma_tail_run(t, spaces());
    if is_blank(l) {
        assert forall|i: int| 0 <= i < l.len() implies spaces()(#[trigger] l[i]) by {}
        text::lemma_run_unique(l, spaces(), l.len() as int);
    } else if trimmed(l).len() == 0 {
        let j = choose|j: int| 0 <= j < l.len() && !is_space(#[trigger] l[j]);
        if j < k {
            assert(spaces()(l[j]));
        } else {
            assert(t[j - k] == l[j]);
            assert(spaces()(t[j - k]));
        }
    }
}

/// What shows whether a service is reachable: a full circle where it is up, a
/// dotted one where it is down with a listener, an empty one where it was not
/// probed or is down without.
pub proof fn the_glyph_tells_of_liveness(s: ServiceView)
    ensures
        s.liveness == Liveness::Up ==> glyph_of(s) == "●"@,
        s.liveness == Liveness::Down && s.pid is Some ==> glyph_of(s) == "◌"@,
        s.liveness == Liveness::Down && s.container is Some ==> glyph_of(s) == "◌"@,
        s.liveness == Liveness::Down && s.pid is None && s.container is None ==> glyph_of(s)
            == "○"@,
        s.liveness == Liveness::Unknown ==> glyph_of(s) == "○"@,
{
}

/// Text `row` is glyph, blank, name, colon and port, as far as a token holds it.
pub open spec fn is_row_text(row: Seq<char>, s: ServiceView, name: Seq<char>) -> bool {
    let full = glyph_of(s) + " "@ + name + ":"@ + decimal_of(s.port as nat);
    if full.len() <= 80 {
        row == full
    } else {
        row == full.take(80)
    }
}

/// A row is named by its label, whatever the process is called; by the process
/// only where the label is absent or blank; and by a question mark where there
/// is neither.
pub proof fn a_label_names_its_row(s: ServiceView)
    ensures
        s.label matches Some(l) ==> !is_blank(l) ==> is_row_text(row_of(s), s, l),
        (s.label matches Some(l) ==> is_blank(l)) && s.process_name.len() > 0 ==> is_row_text(
            row_of(s),
            s,
            s.process_name,
        ),
        (s.label matches Some(l) ==> is_blank(l)) && s.process_name.len() == 0 ==> is_row_text(
            row_of(s),
            s,
            "?"@,
        ),
{
    if let Some(l) = s.label {
        lemma_blank(l);
    }
}

/// Where the services of a workspace fit into its rows, each of them has one: the
/// rows are those of the services, in ascending order of their ports.
pub proof fn every_service_has_its_row(services: Seq<ServiceView>, max: int, i: int)
    requires
        services.len() <= max,
        0 <= i < services.len(),
    ensures
        rows_in(services, max).contains(row_of(services[i])),
        rows_in(services, max).len() == services.len(),
{
    let s = sorted(services, by_port());
    order::sorting_keeps_the_elements(services, by_port());
    assert(services.contains(services[i]));
    assert(s.contains(services[i]));
    let k = choose|k: int| 0 <= k < s.len() && s[k] == services[i];
    assert(rows_in(services, max)[k] == row_of(services[i]));
}

/// Where they do not fit, all rows but the last are those of the services with
/// the lowest ports, and the last says how many more there are.
pub proof fn what_does_not_fit_is_counted(services: Seq<ServiceView>, max: int)
    requires
        1 <= max < services.len(),
    ensures
        ({
            let rows = rows_in(services, max);
            &&& rows.len() == max
            &&& rows.last() == "… +"@ + decimal_of((services.len() - max + 1) as nat) + " more"@
            &&& forall|k: int|
                0 <= k < max - 1 ==> is_row_of_low_port(#[trigger] rows[k], services, k)
        }),
{
    let rows = rows_in(services, max);
    let s = sorted(services, by_port());
    order::sorting_keeps_the_elements(services, by_port());
    assert(order::total_order(by_port()));
    order::sorting_gives_an_order(services, by_port());
    assert forall|k: int| 0 <= k < max - 1 implies is_row_of_low_port(
        #[trigger] rows[k],
        services,
        k,
    ) by {
        assert(rows[k] == row_of(s[k]));
        assert(s.contains(s[k]));
        assert(services.contains(s[k]));
        let i = choose|i: int| 0 <= i < services.len() && services[i] == s[k];
        assert forall|j: int| k < j < s.len() implies s[k].port <= #[trigger] s[j].port by {
            assert(by_port()(s[k], s[j]));
        }
        assert(rows[k] == row_of(services[i]));
        assert(has_rank(services, services[i].port, k)) by {
            assert forall|j: int| 0 <= j < k implies s[j].port <= s[k].port by {
                assert(by_port()(s[j], s[k]));
            }
            let f = |x: ServiceView| x.port < services[i].port;
            lemma_filter_few(s, f, k);
            order::lemma_sorted_count(services, by_port(), f);
        }
    }
}

/// Fewer services than `k + 1` have a lower port than this.
pub open spec fn has_rank(services: Seq<ServiceView>, port: u16, k: int) -> bool {
    services.filter(|x: ServiceView| x.port < port).len() <= k
}

/// Row `row` is that of a service below whose port at most `k` services are.
pub open spec fn is_row_of_low_port(row: Seq<char>, services: Seq<ServiceView>, k: int) -> bool {
    exists|i: int|
        0 <= i < services.len() && row == row_of(#[trigger] services[i]) && has_rank(
            services,
            services[i].port,
            k,
        )
}

proof fn lemma_filter_few(s: Seq<ServiceView>, f: spec_fn(ServiceView) -> bool, k: int)
    requires
        0 <= k <= s.len(),
        forall|j: int| k <= j < s.len() ==> !f(#[trigger] s[j]),
    ensures
        s.filter(f).len() <= k,
    decreases s.len(),
{
    reveal(Seq::filter);
    if s.len() > 0 {
        let t = s.drop_last();
        if k == s.len() {
            seqs::lemma_filter_members(s, f);
        } else {
            assert(!f(s[s.len() - 1]));
            assert forall|j: int| k <= j < t.len() implies !f(#[trigger] t[j]) by {
                assert(t[j] == s[j]);
            }
            lemma_filter_few(t, f, k);
        }
    }
}

/// The rows of two services in a list that fits stand in the order of their
/// ports.
pub proof fn rows_stand_by_port(services: Seq<ServiceView>, max: int, i: int, j: int)
    requires
        services.len() <= max,
        0 <= i < services.len(),
        0 <= j < services.len(),
        services[i].port < services[j].port,
    ensures
        exists|a: int, b: int|
            0 <= a < b < rows_in(services, max).len() && #[trigger] rows_in(services, max)[a]
                == row_of(services[i]) && #[trigger] rows_in(services, max)[b] == row_of(
                services[j],
            ),
{
    let rows = rows_in(services, max);
    let s = sorted(services, by_port());
    order::sorting_keeps_the_elements(services, by_port());
    assert(order::total_order(by_port()));
    order::sorting_gives_an_order(services, by_port());
    assert(services.contains(services[i]) && services.contains(services[j]));
    assert(s.contains(services[i]) && s.contains(services[j]));
    let a = choose|a: int| 0 <= a < s.len() && s[a] == services[i];
    let b = choose|b: int| 0 <= b < s.len() && s[b] == services[j];
    if b < a {
        assert(by_port()(s[b], s[a]));
    }
    assert(rows[a] == row_of(services[i]) && rows[b] == row_of(services[j]));
}

/// The token of a row is called by its number, counted from one, and holds the
/// row.
pub proof fn a_token_is_called_by_its_number(rows: Seq<Seq<char>>, i: int, from: int, to: int)
    ensures
        0 <= i < rows.len() ==> tokens_of(rows)[i] == ("svc_"@ + decimal_of((i + 1) as nat), rows[i]),
        tokens_of(rows).len() == rows.len(),
        from <= i < to ==> keys_between(from, to).contains("svc_"@ + decimal_of((i + 1) as nat)),
        from <= to ==> keys_between(from, to).len() == to - from,
{
    if from <= i < to {
        assert(keys_between(from, to)[i - from] == "svc_"@ + decimal_of((i + 1) as nat));
    }
}

proof fn lemma_users_behind(a: Seq<Seq<char>>, b: Seq<Seq<char>>)
    requires
        !inside_after(a),
        forall|i: int| 0 <= i < b.len() ==> !opens(#[trigger] b[i]) && !closes(b[i]),
    ensures
        users_lines(a + b) == users_lines(a) + b,
        !inside_after(a + b),
    decreases b.len(),
{
    if b.len() == 0 {
        assert(a + b =~= a);
        assert(users_lines(a) + b =~= users_lines(a));
    } else {
        let t = b.drop_last();
        assert((a + b).drop_last() =~= a + t);
        assert((a + b).last() == b[b.len() - 1]);
        lemma_users_behind(a, t);
        assert((users_lines(a) + t).push(b.last()) =~= users_lines(a) + b);
    }
}

proof fn lemma_nothing_inside(a: Seq<Seq<char>>, b: Seq<Seq<char>>)
    requires
        inside_after(a),
        forall|i: int| 0 <= i < b.len() ==> !opens(#[trigger] b[i]) && !closes(b[i]),
    ensures
        users_lines(a + b) == users_lines(a),
        inside_after(a + b),
    decreases b.len(),
{
    if b.len() == 0 {
        assert(a + b =~= a);
    } else {
        let t = b.drop_last();
        assert((a + b).drop_last() =~= a + t);
        assert((a + b).last() == b[b.len() - 1]);
        lemma_nothing_inside(a, t);
    }
}

/// Of a configuration with a block, exactly the lines before and behind the block
/// are the user's.
pub proof fn the_users_lines_stand_around_the_block(
    before: Seq<Seq<char>>,
    start: Seq<char>,
    inner: Seq<Seq<char>>,
    end: Seq<char>,
    behind: Seq<Seq<char>>,
)
    requires
        trimmed(start) == BLOCK_START@,
        trimmed(end) == BLOCK_END@,
        forall|i: int|
            0 <= i < before.len() ==> trimmed(#[trigger] before[i]) != BLOCK_START@ && trimmed(
                before[i],
            ) != BLOCK_END@,
        forall|i: int|
            0 <= i < inner.len() ==> trimmed(#[trigger] inner[i]) != BLOCK_START@ && trimmed(
                inner[i],
            ) != BLOCK_END@,
        forall|i: int|
            0 <= i < behind.len() ==> trimmed(#[trigger] behind[i]) != BLOCK_START@ && trimmed(
                behind[i],
            ) != BLOCK_END@,
    ensures
        users_lines(before + seq![start] + inner + seq![end] + behind) == before + behind,
{
    let none = Seq::<Seq<char>>::empty();
    assert forall|i: int| 0 <= i < before.len() implies !opens(#[trigger] before[i]) && !closes(
        before[i],
    ) by {}
    lemma_users_behind(none, before);
    assert(none + before =~= before);
    let a = before + seq![start];
    assert(a.drop_last() =~= before);
    assert(inside_after(a));
    lemma_nothing_inside(a, inner);
    let c = a + inner + seq![end];
    assert(c.drop_last() =~= a + inner);
    assert(c.last() == end);
    lemma_block(0);
    assert(trimmed(block_lines(0).last()) == BLOCK_END@);
    assert(closes(end));
    assert(!inside_after(c));
    assert forall|i: int| 0 <= i < behind.len() implies !opens(#[trigger] behind[i]) && !closes(
        behind[i],
    ) by {}
    lemma_users_behind(c, behind);
    assert(users_lines(c) =~= before);
}

/// On one port a service registered by hand has its row before another.
pub proof fn what_is_registered_stands_first_on_its_port(
    services: Seq<ServiceView>,
    i: int,
    j: int,
)
    requires
        0 <= i < j < sorted(services, by_port()).len(),
        sorted(services, by_port())[i].port == sorted(services, by_port())[j].port,
        sorted(services, by_port())[j].source == Source::Manual,
    ensures
        sorted(services, by_port())[i].source == Source::Manual,
{
    assert(order::total_order(by_port()));
    order::sorting_gives_an_order(services, by_port());
    let s = sorted(services, by_port());
    assert(by_port()(s[i], s[j]));
}

} // verus!
