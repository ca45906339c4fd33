//! What the picker draws: a frame as a sequence of drawing steps.

use vstd::prelude::*;

use crate::assoc::has_key;
use crate::number;
use crate::number::decimal_of;
use crate::picker::{fits, lines_view, rows_view, Line, LineView, Picker, PickerView, Row, RowView};
use crate::seqs;
use crate::seqs::first_where;
use crate::state::{pairs_of, Liveness};
use crate::text;
use crate::text::{contains_text, padded, repeated, truncated};

verus! {

/// The colours of a frame.
#[derive(Debug, Clone, Copy, PartialEq, Eq, Structural)]
pub enum Colour {
    Grey,
    Green,
    Red,
    Yellow,
}

/// One drawing step.
#[derive(Debug, PartialEq, Eq)]
pub enum Op {
    /// Write this text.
    Text(String),
    /// Write bold from here on.
    Bold,
    /// Write reversed from here on.
    Reverse,
    /// Write without attributes from here on.
    Plain,
    /// Write in this colour from here on.
    Ink(Colour),
    /// Write in the default colour from here on.
    NoInk,
}

/// An [`Op`] with its text as characters.
pub enum OpView {
    Text(Seq<char>),
    Bold,
    Reverse,
    Plain,
    Ink(Colour),
    NoInk,
}

impl View for Op {
    type V = OpView;

    open spec fn view(&self) -> OpView {
        match self {
            Op::Text(s) => OpView::Text(s@),
            Op::Bold => OpView::Bold,
            Op::Reverse => OpView::Reverse,
            Op::Plain => OpView::Plain,
            Op::Ink(c) => OpView::Ink(*c),
            Op::NoInk => OpView::NoInk,
        }
    }
}

/// The steps of a vector, with their texts as characters.
pub open spec fn ops_view(v: Seq<Op>) -> Seq<OpView> {
    v.map_values(|o: Op| o@)
}

/// The end of a line.
pub open spec fn break_op() -> OpView {
    OpView::Text("\r\n"@)
}

/// `a` less `b`, at least zero.
pub open spec fn less(a: int, b: int) -> int {
    if a > b {
        a - b
    } else {
        0
    }
}

// ---------------------------------------------------------------------------
// Header
// ---------------------------------------------------------------------------

/// What the picker lists, in words.
pub open spec fn scope_of(p: PickerView) -> Seq<char> {
    if p.all {
        "all workspaces"@
    } else {
        let ws = match p.workspace {
            Some(w) => w,
            None => seq![],
        };
        let labels = p.state.workspace_labels;
        let k = first_where(labels, has_key::<Seq<char>, Seq<char>>(ws)) as int;
        if k < labels.len() {
            labels[k].1
        } else {
            ws
        }
    }
}

/// The rows whose services accepted a connection.
pub open spec fn is_up() -> spec_fn(RowView) -> bool {
    |r: RowView| r.liveness == Liveness::Up
}

/// The rule across the frame.
pub open spec fn rule_ops(width: int) -> Seq<OpView> {
    seq![
        OpView::Ink(Colour::Grey),
        OpView::Text(repeated('─', width)),
        OpView::NoInk,
        break_op(),
    ]
}

/// The title, with the number of listening services at its right.
pub open spec fn header_ops(p: PickerView, width: int) -> Seq<OpView> {
    let left = " services · "@ + scope_of(p);
    let right = decimal_of(p.rows.filter(is_up()).len()) + " listening"@;
    seq![
        OpView::Bold,
        OpView::Text(left),
        OpView::Plain,
        OpView::Text(repeated(' ', less(width, (left.len() + right.len() + 1) as int))),
        OpView::Ink(Colour::Grey),
        OpView::Text(right),
        OpView::NoInk,
        break_op(),
    ] + rule_ops(width)
}

fn text_op(s: &str) -> (r: Op)
    ensures
        r@ == OpView::Text(s@),
{
    Op::Text(s.to_owned())
}

/// Adds these steps at the end.
fn extend(out: &mut Vec<Op>, more: Vec<Op>)
    ensures
        ops_view(final(out)@) == ops_view(old(out)@) + ops_view(more@),
{
    let mut more = more;
    let ghost tail = more@;
    out.append(&mut more);
    assert(ops_view(out@) =~= ops_view(old(out)@) + ops_view(tail));
}

fn rule(width: usize) -> (r: Vec<Op>)
    ensures
        ops_view(r@) == rule_ops(width as int),
{
    let line = text::repeat('─', width);
    let r: Vec<Op> = vec![Op::Ink(Colour::Grey), Op::Text(line), Op::NoInk, text_op("\r\n")];
    assert(ops_view(r@) =~= rule_ops(width as int));
    r
}

/// What the picker lists, in words.
fn scope(p: &Picker) -> (r: String)
    ensures
        r@ == scope_of(p@),
{
    if p.all {
        return "all workspaces".to_owned();
    }
    let ws: String = match &p.workspace {
        Some(w) => w.clone(),
        None => String::new(),
    };
    let ghost id = match p@.workspace {
        Some(w) => w,
        None => seq![],
    };
    assert(ws@ =~= id);
    let labels = &p.state.workspace_labels;
    let k = seqs::find_where(
        labels,
        |e: &(String, String)| -> (b: bool)
            ensures
                b == (e.0@ == id)
            { text::same(e.0.as_str(), ws.as_str()) },
        Ghost(|e: (String, String)| e.0@ == id),
    );
    proof {
        seqs::lemma_first_where_map(
            labels@,
            |e: (String, String)| (e.0@, e.1@),
            |e: (String, String)| e.0@ == id,
            has_key::<Seq<char>, Seq<char>>(id),
        );
    }
    if k < labels.len() {
        assert(pairs_of(labels@)[k as int].1 == labels@[k as int].1@);
        labels[k].1.clone()
    } else {
        ws
    }
}

/// How many rows have a service that accepted a connection.
fn count_up(rows: &Vec<Row>) -> (r: usize)
    ensures
        r == rows_view(rows@).filter(is_up()).len(),
{
    let ghost all = rows_view(rows@);
    let mut n: usize = 0;
    let mut i: usize = 0;
    proof {
        seqs::lemma_filter_push(all, is_up(), arbitrary());
        assert(all.take(0) =~= seq![]);
    }
    while i < rows.len()
        invariant
            i <= rows@.len(),
            n <= i,
            all == rows_view(rows@),
            n == all.take(i as int).filter(is_up()).len(),
        decreases rows.len() - i,
    {
        proof {
            seqs::lemma_filter_step(all, is_up(), i as int);
            assert(all[i as int] == rows@[i as int]@);
        }
        if rows[i].liveness == Liveness::Up {
            n = n + 1;
        }
        i = i + 1;
    }
    assert(all.take(i as int) =~= all);
    n
}

/// `a` less `b`, at least zero.
fn minus(a: usize, b: usize) -> (r: usize)
    ensures
        r == less(a as int, b as int),
{
    if a > b {
        a - b
    } else {
        0
    }
}

fn header(p: &Picker, width: usize) -> (r: Vec<Op>)
    ensures
        ops_view(r@) == header_ops(p@, width as int),
{
    let mut left: String = " services · ".to_owned();
    text::push_text(&mut left, scope(p).as_str());
    let mut right: String = number::decimal(count_up(&p.rows) as u64);
    text::push_text(&mut right, " listening");
    let pad: usize = minus(
        minus(minus(width, left.as_str().unicode_len()), right.as_str().unicode_len()),
        1,
    );
    let ghost l = left@;
    let ghost r2 = right@;
    let fill = text::repeat(' ', pad);
    let ghost f = fill@;
    let mut out: Vec<Op> = vec![
        Op::Bold,
        Op::Text(left),
        Op::Plain,
        Op::Text(fill),
        Op::Ink(Colour::Grey),
        Op::Text(right),
        Op::NoInk,
        text_op("\r\n"),
    ];
    proof {
        assert(pad == less(width as int, (l.len() + r2.len() + 1) as int));
        assert(ops_view(out@) =~= seq![
            OpView::Bold,
            OpView::Text(l),
            OpView::Plain,
            OpView::Text(f),
            OpView::Ink(Colour::Grey),
            OpView::Text(r2),
            OpView::NoInk,
            break_op(),
        ]);
    }
    extend(&mut out, rule(width));
    out
}

// ---------------------------------------------------------------------------
// Body
// ---------------------------------------------------------------------------

/// How many lines of the list fit, at least one.
pub open spec fn body_height(height: int) -> int {
    if height > 6 {
        height - 5
    } else {
        1
    }
}

/// The line of the selected row, or the first.
pub open spec fn selected_line(p: PickerView) -> int {
    let k = first_where(p.lines, |l: LineView| l == LineView::Row(p.selected)) as int;
    if k < p.lines.len() {
        k
    } else {
        0
    }
}

/// The first line shown: no further from the last frame's than the selection
/// asks for.
pub open spec fn scroll_of(p: PickerView, height: int) -> int {
    let at = selected_line(p);
    let n = body_height(height);
    if at < p.scroll {
        at
    } else if at >= p.scroll + n {
        at + 1 - n
    } else {
        p.scroll
    }
}

/// The longest of these rows' names, in characters.
pub open spec fn longest_name(rows: Seq<RowView>) -> int
    decreases rows.len(),
{
    if rows.len() == 0 {
        0
    } else {
        let rest = longest_name(rows.drop_last());
        let n = rows.last().name.len() as int;
        if n > rest {
            n
        } else {
            rest
        }
    }
}

/// The longest of these rows' URLs, in characters.
pub open spec fn longest_url(rows: Seq<RowView>) -> int
    decreases rows.len(),
{
    if rows.len() == 0 {
        0
    } else {
        let rest = longest_url(rows.drop_last());
        let n = rows.last().url.len() as int;
        if n > rest {
            n
        } else {
            rest
        }
    }
}

/// `n` between `low` and `high`.
pub open spec fn clamped(n: int, low: int, high: int) -> int {
    if n < low {
        low
    } else if n > high {
        high
    } else {
        n
    }
}

/// The width of the name column.
pub open spec fn name_width(rows: Seq<RowView>) -> int {
    clamped(longest_name(rows), 4, 20)
}

/// The width of the URL column.
pub open spec fn url_width(rows: Seq<RowView>) -> int {
    clamped(longest_url(rows), 0, 40)
}

/// The text of a row: name, port and URL in columns, then label and container.
pub open spec fn row_columns(r: RowView, name_w: int, url_w: int) -> Seq<char> {
    " "@ + padded(truncated(r.name, name_w), name_w) + "  :"@ + padded(
        decimal_of(r.port as nat),
        5,
    ) + "  "@ + padded(truncated(r.url, url_w), url_w) + (match r.label {
        Some(l) => "  "@ + l,
        None => seq![],
    }) + (match r.container {
        Some(c) => "  ⧉ "@ + truncated(c, 24),
        None => seq![],
    })
}

/// The colour of a glyph.
pub open spec fn glyph_colour(g: Seq<char>) -> Colour {
    if g == "●"@ {
        Colour::Green
    } else if g == "◌"@ {
        Colour::Red
    } else {
        Colour::Grey
    }
}

/// Reversed where this is the selected row.
pub open spec fn mark_ops(selected: bool) -> Seq<OpView> {
    if selected {
        seq![OpView::Reverse]
    } else {
        seq![]
    }
}

/// A row: its glyph in colour, its columns, and its age at the right.
pub open spec fn row_ops(
    r: RowView,
    selected: bool,
    name_w: int,
    url_w: int,
    width: int,
) -> Seq<OpView> {
    let columns = truncated(row_columns(r, name_w, url_w), less(width, 6));
    mark_ops(selected) + seq![
        OpView::Text(" "@),
        OpView::Ink(glyph_colour(r.glyph)),
        OpView::Text(r.glyph),
        OpView::NoInk,
    ] + mark_ops(selected) + seq![
        OpView::Text(columns),
        OpView::Text(repeated(' ', less(width, (3 + columns.len() + r.age.len() + 1) as int))),
        OpView::Ink(Colour::Grey),
        OpView::Text(r.age),
        OpView::Text(" "@),
        OpView::NoInk,
        OpView::Plain,
        break_op(),
    ]
}

/// The title of a group.
pub open spec fn title_ops(t: Seq<char>) -> Seq<OpView> {
    seq![OpView::Bold, OpView::Text(" "@ + t), OpView::Plain, break_op()]
}

/// A line of the list.
pub open spec fn line_ops(p: PickerView, l: LineView, width: int) -> Seq<OpView> {
    match l {
        LineView::Header(t) => title_ops(t),
        LineView::Row(i) => row_ops(
            p.rows[i],
            i == p.selected,
            name_width(p.rows),
            url_width(p.rows),
            width,
        ),
    }
}

/// The lines of the list from `from` to `to`.
pub open spec fn list_ops(p: PickerView, from: int, to: int, width: int) -> Seq<OpView>
    decreases to - from,
{
    if to <= from {
        seq![]
    } else {
        list_ops(p, from, to - 1, width) + line_ops(p, p.lines[to - 1], width)
    }
}

/// The end of the lines shown.
pub open spec fn shown_to(p: PickerView, height: int) -> int {
    let from = scroll_of(p, height);
    if from + body_height(height) < p.lines.len() {
        from + body_height(height)
    } else if from < p.lines.len() {
        p.lines.len() as int
    } else {
        from
    }
}

/// Why the list is empty.
pub open spec fn empty_message(p: PickerView) -> Seq<char> {
    if p.state.services.len() == 0 && p.state.last_scan_ms == 0 {
        "waiting for the first scan…"@
    } else if p.filter is Some {
        "no matches"@
    } else {
        "no services detected in this workspace (a for all)"@
    }
}

/// The message in the place of an empty list.
pub open spec fn empty_ops(p: PickerView) -> Seq<OpView> {
    if p.rows.len() == 0 {
        seq![
            OpView::Ink(Colour::Grey),
            OpView::Text(" "@ + empty_message(p)),
            OpView::NoInk,
            break_op(),
        ]
    } else {
        seq![]
    }
}

/// `n` empty lines.
pub open spec fn blank_ops(n: int) -> Seq<OpView> {
    Seq::new(
        if n > 0 {
            n as nat
        } else {
            0
        },
        |i: int| break_op(),
    )
}

/// The list, the message where it is empty, and empty lines up to the footer.
pub open spec fn body_ops(p: PickerView, width: int, height: int) -> Seq<OpView> {
    let from = scroll_of(p, height);
    let to = shown_to(p, height);
    list_ops(p, from, to, width) + empty_ops(p) + blank_ops(
        body_height(height) - (to - from) - (if p.rows.len() == 0 {
            1int
        } else {
            0
        }),
    )
}

fn line_of_selection(p: &Picker) -> (r: usize)
    ensures
        r == selected_line(p@),
        r < p.lines@.len() || r == 0,
{
    let ghost test = |l: LineView| l == LineView::Row(p@.selected);
    let wanted: usize = p.selected;
    let k = seqs::find_where(
        &p.lines,
        |l: &Line| -> (b: bool)
            ensures
                b == test(l@)
            {
                match l {
                    Line::Header(_) => false,
                    Line::Row(i) => *i == wanted,
                }
            },
        Ghost(|l: Line| test(l@)),
    );
    proof {
        seqs::lemma_first_where_map(p.lines@, |l: Line| l@, |l: Line| test(l@), test);
        assert(lines_view(p.lines@).len() == p.lines@.len());
    }
    if k < p.lines.len() {
        k
    } else {
        0
    }
}

fn name_column(rows: &Vec<Row>) -> (r: usize)
    ensures
        r == name_width(rows_view(rows@)),
{
    let ghost all = rows_view(rows@);
    let mut n: usize = 0;
    let mut i: usize = 0;
    assert(all.take(0).len() == 0);
    while i < rows.len()
        invariant
            i <= rows@.len(),
            all == rows_view(rows@),
            n == longest_name(all.take(i as int)),
        decreases rows.len() - i,
    {
        proof {
            assert(all.take(i + 1).drop_last() =~= all.take(i as int));
            assert(all.take(i + 1).last() == rows@[i as int]@);
        }
        let len: usize = rows[i].name.as_str().unicode_len();
        if len > n {
            n = len;
        }
        i = i + 1;
    }
    assert(all.take(i as int) =~= all);
    if n < 4 {
        4
    } else if n > 20 {
        20
    } else {
        n
    }
}

fn url_column(rows: &Vec<Row>) -> (r: usize)
    ensures
        r == url_width(rows_view(rows@)),
{
    let ghost all = rows_view(rows@);
    let mut n: usize = 0;
    let mut i: usize = 0;
    assert(all.take(0).len() == 0);
    while i < rows.len()
        invariant
            i <= rows@.len(),
            all == rows_view(rows@),
            n == longest_url(all.take(i as int)),
        decreases rows.len() - i,
    {
        proof {
            assert(all.take(i + 1).drop_last() =~= all.take(i as int));
            assert(all.take(i + 1).last() == rows@[i as int]@);
        }
        let len: usize = rows[i].url.as_str().unicode_len();
        if len > n {
            n = len;
        }
        i = i + 1;
    }
    assert(all.take(i as int) =~= all);
    if n > 40 {
        40
    } else {
        n
    }
}

fn columns(row: &Row, name_w: usize, url_w: usize) -> (r: String)
    ensures
        r@ == row_columns(row@, name_w as int, url_w as int),
{
    let mut out: String = " ".to_owned();
    text::push_text(
        &mut out,
        text::pad(text::truncate(row.name.as_str(), name_w).as_str(), name_w).as_str(),
    );
    text::push_text(&mut out, "  :");
    text::push_text(
        &mut out,
        text::pad(number::decimal(row.port as u64).as_str(), 5).as_str(),
    );
    text::push_text(&mut out, "  ");
    text::push_text(
        &mut out,
        text::pad(text::truncate(row.url.as_str(), url_w).as_str(), url_w).as_str(),
    );
    let ghost a = out@;
    if let Some(l) = &row.label {
        text::push_text(&mut out, "  ");
        text::push_text(&mut out, l.as_str());
    }
    let ghost b = match row@.label {
        Some(l) => "  "@ + l,
        None => seq![],
    };
    assert(out@ =~= a + b);
    if let Some(c) = &row.container {
        text::push_text(&mut out, "  ⧉ ");
        text::push_text(&mut out, text::truncate(c.as_str(), 24).as_str());
    }
    let ghost d = match row@.container {
        Some(c) => "  ⧉ "@ + truncated(c, 24),
        None => seq![],
    };
    assert(out@ =~= a + b + d);
    out
}

fn colour_of(glyph: &str) -> (r: Colour)
    ensures
        r == glyph_colour(glyph@),
{
    if text::same(glyph, "●") {
        Colour::Green
    } else if text::same(glyph, "◌") {
        Colour::Red
    } else {
        Colour::Grey
    }
}

fn row(r: &Row, selected: bool, name_w: usize, url_w: usize, width: usize) -> (out: Vec<Op>)
    ensures
        ops_view(out@) == row_ops(r@, selected, name_w as int, url_w as int, width as int),
{
    let shown = text::truncate(columns(r, name_w, url_w).as_str(), minus(width, 6));
    let pad: usize = minus(
        minus(minus(width, shown.as_str().unicode_len()), r.age.as_str().unicode_len()),
        4,
    );
    let ghost c = shown@;
    assert(pad == less(width as int, (3 + c.len() + r@.age.len() + 1) as int));
    let fill = text::repeat(' ', pad);
    let ghost f = fill@;
    let mut out: Vec<Op> = Vec::new();
    if selected {
        out.push(Op::Reverse);
    }
    assert(ops_view(out@) =~= mark_ops(selected));
    let head: Vec<Op> = vec![
        text_op(" "),
        Op::Ink(colour_of(r.glyph)),
        text_op(r.glyph),
        Op::NoInk,
    ];
    let ghost h = ops_view(head@);
    assert(h =~= seq![
        OpView::Text(" "@),
        OpView::Ink(glyph_colour(r@.glyph)),
        OpView::Text(r@.glyph),
        OpView::NoInk,
    ]);
    extend(&mut out, head);
    if selected {
        out.push(Op::Reverse);
    }
    assert(ops_view(out@) =~= mark_ops(selected) + h + mark_ops(selected));
    let tail: Vec<Op> = vec![
        Op::Text(shown),
        Op::Text(fill),
        Op::Ink(Colour::Grey),
        text_op(r.age.as_str()),
        text_op(" "),
        Op::NoInk,
        Op::Plain,
        text_op("\r\n"),
    ];
    let ghost t = ops_view(tail@);
    assert(t =~= seq![
        OpView::Text(c),
        OpView::Text(f),
        OpView::Ink(Colour::Grey),
        OpView::Text(r@.age),
        OpView::Text(" "@),
        OpView::NoInk,
        OpView::Plain,
        break_op(),
    ]);
    extend(&mut out, tail);
    out
}

fn title(t: &str) -> (r: Vec<Op>)
    ensures
        ops_view(r@) == title_ops(t@),
{
    let mut s: String = " ".to_owned();
    text::push_text(&mut s, t);
    let ghost v = s@;
    let r: Vec<Op> = vec![Op::Bold, Op::Text(s), Op::Plain, text_op("\r\n")];
    assert(ops_view(r@) =~= seq![OpView::Bold, OpView::Text(v), OpView::Plain, break_op()]);
    r
}

fn list(p: &Picker, from: usize, to: usize, width: usize) -> (r: Vec<Op>)
    requires
        fits(p@),
        from <= to,
        to <= p.lines@.len() || to == from,
    ensures
        ops_view(r@) == list_ops(p@, from as int, to as int, width as int),
{
    let name_w = name_column(&p.rows);
    let url_w = url_column(&p.rows);
    let ghost v = p@;
    let mut out: Vec<Op> = Vec::new();
    let mut i: usize = from;
    assert(ops_view(out@) =~= list_ops(v, from as int, from as int, width as int));
    while i < to
        invariant
            from <= i <= to,
            to <= p.lines@.len() || to == from,
            v == p@,
            fits(v),
            name_w == name_width(v.rows),
            url_w == url_width(v.rows),
            ops_view(out@) == list_ops(v, from as int, i as int, width as int),
        decreases to - i,
    {
        let l = &p.lines[i];
        assert(v.lines[i as int] == l@);
        let part: Vec<Op> = match l {
            Line::Header(t) => title(t.as_str()),
            Line::Row(k) => {
                assert(v.lines[i as int] == LineView::Row(*k as int));
                assert(v.rows.len() == p.rows@.len());
                assert(v.rows[*k as int] == p.rows@[*k as int]@);
                row(&p.rows[*k], *k == p.selected, name_w, url_w, width)
            },
        };
        assert(ops_view(part@) == line_ops(v, v.lines[i as int], width as int));
        extend(&mut out, part);
        i = i + 1;
    }
    out
}

fn blank(n: usize) -> (r: Vec<Op>)
    ensures
        ops_view(r@) == blank_ops(n as int),
{
    let mut out: Vec<Op> = Vec::new();
    let mut i: usize = 0;
    assert(ops_view(out@) =~= blank_ops(0));
    while i < n
        invariant
            i <= n,
            ops_view(out@) == blank_ops(i as int),
        decreases n - i,
    {
        let ghost before = ops_view(out@);
        out.push(text_op("\r\n"));
        assert(ops_view(out@) =~= before.push(break_op()));
        assert(ops_view(out@) =~= blank_ops(i + 1));
        i = i + 1;
    }
    out
}

fn empty_list(p: &Picker) -> (r: Vec<Op>)
    ensures
        ops_view(r@) == empty_ops(p@),
{
    assert(p@.rows.len() == p.rows@.len());
    assert(p@.state.services.len() == p.state.services@.len());
    if p.rows.len() > 0 {
        let none: Vec<Op> = Vec::new();
        assert(ops_view(none@) =~= empty_ops(p@));
        return none;
    }
    let mut m: String = " ".to_owned();
    if p.state.services.len() == 0 && p.state.last_scan_ms == 0 {
        text::push_text(&mut m, "waiting for the first scan…");
    } else if p.filter.is_some() {
        text::push_text(&mut m, "no matches");
    } else {
        text::push_text(&mut m, "no services detected in this workspace (a for all)");
    }
    let ghost v = m@;
    assert(v == " "@ + empty_message(p@));
    let r: Vec<Op> = vec![Op::Ink(Colour::Grey), Op::Text(m), Op::NoInk, text_op("\r\n")];
    assert(ops_view(r@) =~= empty_ops(p@));
    r
}

// ---------------------------------------------------------------------------
// Footer
// ---------------------------------------------------------------------------

/// The line that speaks: the last message, else the filter, else what the daemon
/// last complained of.
pub open spec fn status_ops(p: PickerView, width: int) -> Seq<OpView> {
    match (p.status, p.filter) {
        (Some((m, fault)), _) => seq![
            OpView::Ink(
                if fault {
                    Colour::Yellow
                } else {
                    Colour::Green
                },
            ),
            OpView::Text(" "@ + truncated(m, width - 2)),
            OpView::NoInk,
        ],
        (None, Some(f)) => if p.filter_editing {
            seq![OpView::Text(" /"@ + f), OpView::Reverse, OpView::Text(" "@), OpView::Plain]
        } else {
            seq![
                OpView::Ink(Colour::Grey),
                OpView::Text(" filter: "@ + f + "  (/ edit, esc clear)"@),
                OpView::NoInk,
            ]
        },
        (None, None) => match p.state.last_error {
            Some(e) => seq![
                OpView::Ink(Colour::Yellow),
                OpView::Text(" daemon: "@ + truncated(e, width - 10)),
                OpView::NoInk,
            ],
            None => seq![],
        },
    }
}

/// The keys, in words: at length where that fits, and without those that end a
/// service where none can be ended.
pub open spec fn help_of(all: bool, kill: bool, width: int) -> Seq<char> {
    let other = if all {
        "this ws"@
    } else {
        "all"@
    };
    let full = " ⏎ open   y copy url"@ + (if kill {
        "   x kill   X kill -9"@
    } else {
        seq![]
    }) + "   r rescan   a "@ + other + "   / filter   q close"@;
    let compact = " ⏎ open  y copy"@ + (if kill {
        "  x kill  X kill-9"@
    } else {
        seq![]
    }) + "  r rescan  a "@ + other + "  / filter  q close"@;
    if full.len() <= width {
        full
    } else {
        compact
    }
}

/// The rule, the line that speaks, and the keys.
pub open spec fn footer_ops(p: PickerView, width: int) -> Seq<OpView> {
    rule_ops(width) + status_ops(p, width) + seq![
        break_op(),
        OpView::Ink(Colour::Grey),
        OpView::Text(truncated(help_of(p.all, p.reachable, width), width)),
        OpView::NoInk,
    ]
}

/// The frame is wide enough for the line that speaks.
pub open spec fn wide_enough(p: PickerView, width: int) -> bool {
    &&& p.status is Some ==> width >= 2
    &&& p.status is None && p.filter is None && p.state.last_error is Some ==> width >= 10
}

fn status(p: &Picker, width: usize) -> (r: Vec<Op>)
    requires
        wide_enough(p@, width as int),
    ensures
        ops_view(r@) == status_ops(p@, width as int),
{
    if let Some((m, fault)) = &p.status {
        let mut s: String = " ".to_owned();
        text::push_text(&mut s, text::truncate(m.as_str(), width - 2).as_str());
        let ghost v = s@;
        let colour: Colour = if *fault {
            Colour::Yellow
        } else {
            Colour::Green
        };
        let r: Vec<Op> = vec![Op::Ink(colour), Op::Text(s), Op::NoInk];
        assert(ops_view(r@) =~= seq![OpView::Ink(colour), OpView::Text(v), OpView::NoInk]);
        return r;
    }
    if let Some(f) = &p.filter {
        if p.filter_editing {
            let mut s: String = " /".to_owned();
            text::push_text(&mut s, f.as_str());
            let ghost v = s@;
            let r: Vec<Op> = vec![Op::Text(s), Op::Reverse, text_op(" "), Op::Plain];
            assert(ops_view(r@) =~= seq![
                OpView::Text(v),
                OpView::Reverse,
                OpView::Text(" "@),
                OpView::Plain,
            ]);
            return r;
        }
        let mut s: String = " filter: ".to_owned();
        text::push_text(&mut s, f.as_str());
        text::push_text(&mut s, "  (/ edit, esc clear)");
        let ghost v = s@;
        let r: Vec<Op> = vec![Op::Ink(Colour::Grey), Op::Text(s), Op::NoInk];
        assert(ops_view(r@) =~= seq![OpView::Ink(Colour::Grey), OpView::Text(v), OpView::NoInk]);
        return r;
    }
    if let Some(e) = &p.state.last_error {
        let mut s: String = " daemon: ".to_owned();
        text::push_text(&mut s, text::truncate(e.as_str(), width - 10).as_str());
        let ghost v = s@;
        let r: Vec<Op> = vec![Op::Ink(Colour::Yellow), Op::Text(s), Op::NoInk];
        assert(ops_view(r@) =~= seq![OpView::Ink(Colour::Yellow), OpView::Text(v), OpView::NoInk]);
        return r;
    }
    let none: Vec<Op> = Vec::new();
    assert(ops_view(none@) =~= seq![]);
    none
}

fn help(all: bool, kill: bool, width: usize) -> (r: String)
    ensures
        r@ == help_of(all, kill, width as int),
{
    let other: &str = if all {
        "this ws"
    } else {
        "all"
    };
    let mut full: String = " ⏎ open   y copy url".to_owned();
    let mut compact: String = " ⏎ open  y copy".to_owned();
    if kill {
        text::push_text(&mut full, "   x kill   X kill -9");
        text::push_text(&mut compact, "  x kill  X kill-9");
    } else {
        assert(full@ + Seq::<char>::empty() =~= full@);
        assert(compact@ + Seq::<char>::empty() =~= compact@);
    }
    text::push_text(&mut full, "   r rescan   a ");
    text::push_text(&mut full, other);
    text::push_text(&mut full, "   / filter   q close");
    if full.as_str().unicode_len() <= width {
        return full;
    }
    text::push_text(&mut compact, "  r rescan  a ");
    text::push_text(&mut compact, other);
    text::push_text(&mut compact, "  / filter  q close");
    compact
}

fn footer(p: &Picker, width: usize) -> (r: Vec<Op>)
    requires
        wide_enough(p@, width as int),
    ensures
        ops_view(r@) == footer_ops(p@, width as int),
{
    let mut out = rule(width);
    extend(&mut out, status(p, width));
    let keys = text::truncate(help(p.all, p.reachable, width).as_str(), width);
    let ghost k = keys@;
    let last: Vec<Op> = vec![text_op("\r\n"), Op::Ink(Colour::Grey), Op::Text(keys), Op::NoInk];
    assert(ops_view(last@) =~= seq![
        break_op(),
        OpView::Ink(Colour::Grey),
        OpView::Text(k),
        OpView::NoInk,
    ]);
    extend(&mut out, last);
    out
}

// ---------------------------------------------------------------------------
// The frame
// ---------------------------------------------------------------------------

/// What is drawn on a terminal of this size.
pub open spec fn frame_of(p: PickerView, width: int, height: int) -> Seq<OpView> {
    header_ops(p, width) + body_ops(p, width, height) + footer_ops(p, width)
}

/// The first line shown.
fn first_shown(p: &Picker, height: usize) -> (r: usize)
    ensures
        r == scroll_of(p@, height as int),
{
    let n: usize = if height > 6 {
        height - 5
    } else {
        1
    };
    let at: usize = line_of_selection(p);
    if at < p.scroll {
        at
    } else if at - p.scroll >= n {
        at - n + 1
    } else {
        p.scroll
    }
}

/// The list, scrolled to this line, down to the footer.
fn body(p: &Picker, from: usize, width: usize, height: usize) -> (r: Vec<Op>)
    requires
        fits(p@),
        from == scroll_of(p@, height as int),
    ensures
        ops_view(r@) == body_ops(p@, width as int, height as int),
{
    let n: usize = if height > 6 {
        height - 5
    } else {
        1
    };
    assert(p@.lines.len() == p.lines@.len());
    assert(p@.rows.len() == p.rows@.len());
    let total: usize = p.lines.len();
    let to: usize = if from < total {
        if total - from > n {
            from + n
        } else {
            total
        }
    } else {
        from
    };
    let mut out = list(p, from, to, width);
    extend(&mut out, empty_list(p));
    let note: usize = if p.rows.len() == 0 {
        1
    } else {
        0
    };
    let left: usize = minus(minus(n, to - from), note);
    let fill = blank(left);
    assert(ops_view(fill@) =~= blank_ops(n - (to - from) - note));
    extend(&mut out, fill);
    out
}

impl Picker {
    /// Draws the picker on a terminal of this size, scrolled to its selection.
    pub fn render(&mut self, width: u16, height: u16) -> (r: Vec<Op>)
        requires
            fits(old(self)@),
            wide_enough(old(self)@, width as int),
        ensures
            ops_view(r@) == frame_of(old(self)@, width as int, height as int),
            final(self)@ == (PickerView {
                scroll: scroll_of(old(self)@, height as int),
                ..old(self)@
            }),
            fits(final(self)@),
    {
        let w: usize = width as usize;
        let h: usize = height as usize;
        let from: usize = first_shown(self, h);
        let mut out = header(self, w);
        extend(&mut out, body(self, from, w, h));
        extend(&mut out, footer(self, w));
        self.scroll = from;
        out
    }
}

/// The selected row is on the screen: its line lies among those shown.
pub proof fn the_selection_is_shown(p: PickerView, height: int)
    requires
        fits(p),
        p.rows.len() > 0,
        p.scroll >= 0,
        exists|k: int| 0 <= k < p.lines.len() && #[trigger] p.lines[k] == LineView::Row(p.selected),
    ensures
        p.lines[selected_line(p)] == LineView::Row(p.selected),
        scroll_of(p, height) <= selected_line(p) < shown_to(p, height),
        shown_to(p, height) - scroll_of(p, height) <= body_height(height),
{
    let test = |l: LineView| l == LineView::Row(p.selected);
    seqs::lemma_first_where(p.lines, test);
    let k = choose|k: int|
        0 <= k < p.lines.len() && #[trigger] p.lines[k] == LineView::Row(p.selected);
    assert(test(p.lines[k]));
}

proof fn lemma_ops_contain(a: Seq<OpView>, b: Seq<OpView>, o: OpView)
    ensures
        a.contains(o) ==> (a + b).contains(o),
        b.contains(o) ==> (a + b).contains(o),
{
    if a.contains(o) {
        let k = choose|k: int| 0 <= k < a.len() && a[k] == o;
        assert((a + b)[k] == o);
    }
    if b.contains(o) {
        let k = choose|k: int| 0 <= k < b.len() && b[k] == o;
        assert((a + b)[a.len() + k] == o);
    }
}

proof fn lemma_line_in_list(p: PickerView, from: int, to: int, width: int, k: int, o: OpView)
    requires
        from <= k < to,
        line_ops(p, p.lines[k], width).contains(o),
    ensures
        list_ops(p, from, to, width).contains(o),
    decreases to - from,
{
    let front = list_ops(p, from, to - 1, width);
    let last = line_ops(p, p.lines[to - 1], width);
    lemma_ops_contain(front, last, o);
    if k < to - 1 {
        lemma_line_in_list(p, from, to - 1, width, k, o);
    }
}

/// Whatever the line of the selection draws is drawn in the frame, and so is
/// every other line that the frame has room for.
pub proof fn the_frame_draws_the_lines_shown(
    p: PickerView,
    width: int,
    height: int,
    k: int,
    o: OpView,
)
    requires
        scroll_of(p, height) <= k < shown_to(p, height),
        line_ops(p, p.lines[k], width).contains(o),
    ensures
        frame_of(p, width, height).contains(o),
{
    let from = scroll_of(p, height);
    let to = shown_to(p, height);
    let list = list_ops(p, from, to, width);
    lemma_line_in_list(p, from, to, width, k, o);
    let rest = blank_ops(
        body_height(height) - (to - from) - (if p.rows.len() == 0 {
            1int
        } else {
            0
        }),
    );
    lemma_ops_contain(list, empty_ops(p), o);
    lemma_ops_contain(list + empty_ops(p), rest, o);
    let body = body_ops(p, width, height);
    lemma_ops_contain(header_ops(p, width), body, o);
    lemma_ops_contain(header_ops(p, width) + body, footer_ops(p, width), o);
}

/// A list that fits is shown from its beginning to its end, once the selection
/// does not ask for more; five lines of the frame are for the rest.
pub proof fn the_frame_is_filled(p: PickerView, height: int)
    requires
        fits(p),
        0 <= p.scroll,
    ensures
        height > 6 ==> body_height(height) == height - 5,
        p.scroll == 0 && p.lines.len() <= body_height(height) ==> scroll_of(p, height) == 0
            && shown_to(p, height) == p.lines.len(),
        scroll_of(p, height) + body_height(height) <= p.lines.len() ==> shown_to(p, height)
            == scroll_of(p, height) + body_height(height),
        scroll_of(p, height) < p.lines.len() < scroll_of(p, height) + body_height(height)
            ==> shown_to(p, height) == p.lines.len(),
{
    let test = |l: LineView| l == LineView::Row(p.selected);
    seqs::lemma_first_where(p.lines, test);
}

/// A row draws its glyph in the colour of its state, its columns, and its age;
/// the selected one is reversed, and no other is.
pub proof fn a_row_draws_its_own(
    r: RowView,
    selected: bool,
    name_w: int,
    url_w: int,
    width: int,
)
    ensures
        row_ops(r, selected, name_w, url_w, width).contains(OpView::Text(r.glyph)),
        row_ops(r, selected, name_w, url_w, width).contains(OpView::Text(r.age)),
        row_columns(r, name_w, url_w).len() <= width - 6 ==> row_ops(
            r,
            selected,
            name_w,
            url_w,
            width,
        ).contains(OpView::Text(row_columns(r, name_w, url_w))),
        row_ops(r, selected, name_w, url_w, width).contains(OpView::Reverse) == selected,
        r.glyph == "●"@ ==> row_ops(r, selected, name_w, url_w, width).contains(
            OpView::Ink(Colour::Green),
        ),
        r.glyph == "◌"@ ==> row_ops(r, selected, name_w, url_w, width).contains(
            OpView::Ink(Colour::Red),
        ),
{
    reveal_strlit("●");
    reveal_strlit("◌");
    assert("●"@[0] == '●' && "◌"@[0] == '◌');
    let columns = truncated(row_columns(r, name_w, url_w), less(width, 6));
    let m = mark_ops(selected);
    let ops = row_ops(r, selected, name_w, url_w, width);
    let n = m.len() as int;
    assert(ops[n + 1] == OpView::Ink(glyph_colour(r.glyph)));
    assert(ops[n + 2] == OpView::Text(r.glyph));
    assert(ops[2 * n + 4] == OpView::Text(columns));
    assert(ops[2 * n + 7] == OpView::Text(r.age));
    if selected {
        assert(ops[0] == OpView::Reverse);
    } else {
        assert forall|k: int| 0 <= k < ops.len() implies #[trigger] ops[k] != OpView::Reverse by {
            assert(ops.len() == 12);
        }
    }
}

/// The columns of a row hold its name, its port and its URL as far as they fit,
/// its label, and the container that it is.
pub proof fn the_columns_hold_the_row(r: RowView, name_w: int, url_w: int)
    requires
        name_w >= 1,
        url_w >= 1,
    ensures
        r.name.len() <= name_w ==> contains_text(row_columns(r, name_w, url_w), r.name),
        contains_text(row_columns(r, name_w, url_w), ":"@ + decimal_of(r.port as nat)),
        r.url.len() <= url_w ==> contains_text(row_columns(r, name_w, url_w), r.url),
        r.label matches Some(l) ==> contains_text(row_columns(r, name_w, url_w), l),
        r.container matches Some(c) ==> (c.len() <= 24 ==> contains_text(
            row_columns(r, name_w, url_w),
            c,
        )),
{
    let name = padded(truncated(r.name, name_w), name_w);
    let digits = decimal_of(r.port as nat);
    let port = padded(digits, 5);
    let url = padded(truncated(r.url, url_w), url_w);
    let label = match r.label {
        Some(l) => "  "@ + l,
        None => seq![],
    };
    let container = match r.container {
        Some(c) => "  ⧉ "@ + truncated(c, 24),
        None => seq![],
    };
    let a = " "@ + name;
    let b = a + "  :"@;
    let c = b + port;
    let d = c + "  "@;
    let e = d + url;
    let f = e + label;
    assert(row_columns(r, name_w, url_w) == f + container);
    if r.name.len() <= name_w {
        lemma_padded_contains(r.name, name_w);
        text::lemma_contains_add(" "@, name, r.name);
        text::lemma_contains_add(a, "  :"@, r.name);
        text::lemma_contains_add(b, port, r.name);
        lemma_kept(c, url, label, container, r.name);
    }
    lemma_colon_port(a, digits, port);
    lemma_kept(c, url, label, container, ":"@ + digits);
    if r.url.len() <= url_w {
        lemma_padded_contains(r.url, url_w);
        text::lemma_contains_add(d, url, r.url);
        text::lemma_contains_add(e, label, r.url);
        text::lemma_contains_add(f, container, r.url);
    }
    if let Some(l) = r.label {
        text::a_text_contains_its_parts("  "@, l, seq![]);
        assert("  "@ + l + Seq::<char>::empty() =~= label);
        text::lemma_contains_add(e, label, l);
        text::lemma_contains_add(f, container, l);
    }
    if let Some(name) = r.container {
        if name.len() <= 24 {
            text::a_text_contains_its_parts("  ⧉ "@, name, seq![]);
            assert("  ⧉ "@ + name + Seq::<char>::empty() =~= container);
            text::lemma_contains_add(f, container, name);
        }
    }
}

proof fn lemma_kept(
    c: Seq<char>,
    url: Seq<char>,
    label: Seq<char>,
    container: Seq<char>,
    pat: Seq<char>,
)
    requires
        contains_text(c, pat),
    ensures
        contains_text(c + "  "@ + url + label + container, pat),
{
    let d = c + "  "@;
    text::lemma_contains_add(c, "  "@, pat);
    text::lemma_contains_add(d, url, pat);
    text::lemma_contains_add(d + url, label, pat);
    text::lemma_contains_add(d + url + label, container, pat);
}

proof fn lemma_padded_contains(s: Seq<char>, n: int)
    requires
        s.len() <= n,
    ensures
        contains_text(padded(truncated(s, n), n), s),
{
    let t = padded(s, n);
    let pad = t.skip(s.len() as int);
    text::lemma_contains_middle(t, seq![], s, pad);
    assert(truncated(s, n) == s);
}

proof fn lemma_colon_port(a: Seq<char>, digits: Seq<char>, port: Seq<char>)
    requires
        port == padded(digits, 5),
    ensures
        contains_text(a + "  :"@ + port, ":"@ + digits),
{
    reveal_strlit("  :");
    reveal_strlit(":");
    let pad = port.skip(digits.len() as int);
    assert(port =~= digits + pad);
    text::lemma_contains_middle(a + "  :"@ + port, a + seq![' ', ' '], ":"@ + digits, pad);
}

/// The name column is as wide as the longest name, from four to twenty
/// characters, and the URL column as the longest URL, up to forty.
pub proof fn columns_are_as_wide_as_needed(rows: Seq<RowView>, k: int)
    requires
        0 <= k < rows.len(),
    ensures
        rows[k].name.len() <= 20 ==> rows[k].name.len() <= name_width(rows),
        4 <= name_width(rows) <= 20,
        rows[k].url.len() <= 40 ==> rows[k].url.len() <= url_width(rows),
        url_width(rows) <= 40,
{
    lemma_longest(rows, k);
}

proof fn lemma_longest(rows: Seq<RowView>, k: int)
    requires
        0 <= k < rows.len(),
    ensures
        rows[k].name.len() <= longest_name(rows),
        rows[k].url.len() <= longest_url(rows),
    decreases rows.len(),
{
    if k < rows.len() - 1 {
        lemma_longest(rows.drop_last(), k);
    }
}

/// The title says what is listed: all workspaces, or the label of the one, or
/// its id where it has none on file.
pub proof fn the_title_names_what_is_listed(p: PickerView, ws: Seq<char>, k: int)
    ensures
        p.all ==> scope_of(p) == "all workspaces"@,
        !p.all && p.workspace == Some(ws) && 0 <= k < p.state.workspace_labels.len()
            && p.state.workspace_labels[k].0 == ws && (forall|j: int|
            0 <= j < k ==> (#[trigger] p.state.workspace_labels[j]).0 != ws) ==> scope_of(p)
            == p.state.workspace_labels[k].1,
        !p.all && p.workspace == Some(ws) && (forall|j: int|
            0 <= j < p.state.workspace_labels.len() ==> (
            #[trigger] p.state.workspace_labels[j]).0 != ws) ==> scope_of(p) == ws,
{
    let labels = p.state.workspace_labels;
    let f = has_key::<Seq<char>, Seq<char>>(ws);
    seqs::lemma_first_where(labels, f);
    let n = first_where(labels, f) as int;
    if n < labels.len() {
        assert(f(labels[n]));
    }
    if 0 <= k < labels.len() && labels[k].0 == ws {
        assert(f(labels[k]));
    }
}

/// The header tells what is listed and how many of the rows accepted a
/// connection.
pub proof fn the_header_counts_what_listens(p: PickerView, width: int)
    ensures
        header_ops(p, width).contains(OpView::Text(" services · "@ + scope_of(p))),
        header_ops(p, width).contains(
            OpView::Text(
                decimal_of(p.rows.filter(|r: RowView| r.liveness == Liveness::Up).len())
                    + " listening"@,
            ),
        ),
{
    let ops = header_ops(p, width);
    assert(ops[1] == OpView::Text(" services · "@ + scope_of(p)));
    let up = |r: RowView| r.liveness == Liveness::Up;
    assert(up =~= is_up());
    assert(ops[5] == OpView::Text(decimal_of(p.rows.filter(is_up()).len()) + " listening"@));
}

/// The last message is shown before all else, then the filter, then what the
/// daemon complained of.
pub proof fn the_line_that_speaks(p: PickerView, width: int, m: Seq<char>, fault: bool)
    ensures
        p.status == Some((m, fault)) && m.len() <= width - 2 ==> status_ops(p, width).contains(
            OpView::Text(" "@ + m),
        ) && status_ops(p, width).contains(
            OpView::Ink(
                if fault {
                    Colour::Yellow
                } else {
                    Colour::Green
                },
            ),
        ),
        p.status is None && p.filter == Some(m) && p.filter_editing ==> status_ops(
            p,
            width,
        ).contains(OpView::Text(" /"@ + m)),
        p.status is None && p.filter == Some(m) && !p.filter_editing ==> status_ops(
            p,
            width,
        ).contains(OpView::Text(" filter: "@ + m + "  (/ edit, esc clear)"@)),
        p.status is None && p.filter is None && p.state.last_error == Some(m) && m.len() <= width
            - 10 ==> status_ops(p, width).contains(OpView::Text(" daemon: "@ + m)),
        p.status is None && p.filter is None && p.state.last_error is None ==> status_ops(
            p,
            width,
        ).len() == 0,
{
    let ops = status_ops(p, width);
    if p.status == Some((m, fault)) && m.len() <= width - 2 {
        assert(ops[0] == OpView::Ink(
            if fault {
                Colour::Yellow
            } else {
                Colour::Green
            },
        ));
        assert(ops[1] == OpView::Text(" "@ + m));
    } else if p.status is None && p.filter == Some(m) {
        if p.filter_editing {
            assert(ops[0] == OpView::Text(" /"@ + m));
        } else {
            assert(ops[1] == OpView::Text(" filter: "@ + m + "  (/ edit, esc clear)"@));
        }
    } else if p.status is None && p.filter is None && p.state.last_error == Some(m) && m.len()
        <= width - 10 {
        assert(ops[1] == OpView::Text(" daemon: "@ + m));
    }
}

/// The keys that end a service are named where one can be ended, and not where
/// none can; the others are named always.
pub proof fn the_keys_are_named(all: bool, width: int)
    ensures
        contains_text(help_of(all, true, width), "x kill"@),
        contains_text(help_of(all, true, width), "r rescan"@),
        contains_text(help_of(all, false, width), "r rescan"@),
        contains_text(help_of(all, true, width), "/ filter"@),
        contains_text(help_of(all, false, width), "/ filter"@),
        contains_text(help_of(true, all, width), "a this ws"@),
        contains_text(help_of(false, all, width), "a all"@),
        !help_of(all, false, width).contains('x'),
        !help_of(all, false, width).contains('X'),
{
    lemma_no_kill(all, width);
    lemma_help(all, true, width);
    lemma_help(all, false, width);
    lemma_help(true, all, width);
    lemma_help(false, all, width);
}

proof fn lemma_no_kill(all: bool, width: int)
    ensures
        !help_of(all, false, width).contains('x'),
        !help_of(all, false, width).contains('X'),
{
    reveal_strlit(" ⏎ open   y copy url");
    reveal_strlit(" ⏎ open  y copy");
    reveal_strlit("   r rescan   a ");
    reveal_strlit("  r rescan  a ");
    reveal_strlit("   / filter   q close");
    reveal_strlit("  / filter  q close");
    reveal_strlit("this ws");
    reveal_strlit("all");
    let other = if all {
        "this ws"@
    } else {
        "all"@
    };
    let none = Seq::<char>::empty();
    lemma_neither(" ⏎ open   y copy url"@, none, "   r rescan   a "@, other, "   / filter   q close"@);
    lemma_neither(" ⏎ open  y copy"@, none, "  r rescan  a "@, other, "  / filter  q close"@);
}

proof fn lemma_neither(a: Seq<char>, b: Seq<char>, c: Seq<char>, d: Seq<char>, e: Seq<char>)
    requires
        forall|i: int| 0 <= i < a.len() ==> #[trigger] a[i] != 'x' && a[i] != 'X',
        forall|i: int| 0 <= i < b.len() ==> #[trigger] b[i] != 'x' && b[i] != 'X',
        forall|i: int| 0 <= i < c.len() ==> #[trigger] c[i] != 'x' && c[i] != 'X',
        forall|i: int| 0 <= i < d.len() ==> #[trigger] d[i] != 'x' && d[i] != 'X',
        forall|i: int| 0 <= i < e.len() ==> #[trigger] e[i] != 'x' && e[i] != 'X',
    ensures
        !(a + b + c + d + e).contains('x'),
        !(a + b + c + d + e).contains('X'),
{
}

proof fn lemma_help(all: bool, kill: bool, width: int)
    ensures
        kill ==> contains_text(help_of(all, kill, width), "x kill"@),
        contains_text(help_of(all, kill, width), "r rescan"@),
        contains_text(help_of(all, kill, width), "/ filter"@),
        all ==> contains_text(help_of(all, kill, width), "a this ws"@),
        !all ==> contains_text(help_of(all, kill, width), "a all"@),
{
    let other = if all {
        "this ws"@
    } else {
        "all"@
    };
    reveal_strlit("   x kill   X kill -9");
    reveal_strlit("  x kill  X kill-9");
    reveal_strlit("   r rescan   a ");
    reveal_strlit("  r rescan  a ");
    reveal_strlit("   / filter   q close");
    reveal_strlit("  / filter  q close");
    reveal_strlit("x kill");
    reveal_strlit("r rescan");
    reveal_strlit("/ filter");
    reveal_strlit("a this ws");
    reveal_strlit("a all");
    reveal_strlit("this ws");
    reveal_strlit("all");
    let three = "   "@;
    reveal_strlit("   ");
    reveal_strlit("  ");
    let kf = if kill {
        "   x kill   X kill -9"@
    } else {
        Seq::<char>::empty()
    };
    let kc = if kill {
        "  x kill  X kill-9"@
    } else {
        Seq::<char>::empty()
    };
    let hf = " ⏎ open   y copy url"@;
    let hc = " ⏎ open  y copy"@;
    let rf = "   r rescan   a "@;
    let rc = "  r rescan  a "@;
    let tf = "   / filter   q close"@;
    let tc = "  / filter  q close"@;
    let full = hf + kf + rf + other + tf;
    let compact = hc + kc + rc + other + tc;
    let named = if all {
        "a this ws"@
    } else {
        "a all"@
    };
    if full.len() <= width {
        assert(help_of(all, kill, width) == full);
        assert(kill ==> kf =~= three + "x kill"@ + kf.skip(9));
        if kill {
            text::lemma_contains_middle(full, hf + three, "x kill"@, kf.skip(9) + rf + other + tf);
        }
        assert(rf =~= three + "r rescan"@ + rf.skip(11));
        text::lemma_contains_middle(full, hf + kf + three, "r rescan"@, rf.skip(11) + other + tf);
        assert(rf =~= rf.take(14) + seq!['a', ' ']);
        assert(named =~= seq!['a', ' '] + other);
        text::lemma_contains_middle(full, hf + kf + rf.take(14), named, tf);
        assert(tf =~= three + "/ filter"@ + tf.skip(11));
        text::lemma_contains_middle(full, hf + kf + rf + other + three, "/ filter"@, tf.skip(11));
    } else {
        assert(help_of(all, kill, width) == compact);
        assert(kill ==> kc =~= "  "@ + "x kill"@ + kc.skip(8));
        if kill {
            text::lemma_contains_middle(compact, hc + "  "@, "x kill"@, kc.skip(8) + rc + other + tc);
        }
        assert(rc =~= "  "@ + "r rescan"@ + rc.skip(10));
        text::lemma_contains_middle(compact, hc + kc + "  "@, "r rescan"@, rc.skip(10) + other + tc);
        assert(rc =~= rc.take(12) + seq!['a', ' ']);
        assert(named =~= seq!['a', ' '] + other);
        text::lemma_contains_middle(compact, hc + kc + rc.take(12), named, tc);
        assert(tc =~= "  "@ + "/ filter"@ + tc.skip(10));
        text::lemma_contains_middle(compact, hc + kc + rc + other + "  "@, "/ filter"@, tc.skip(10));
    }
}

/// An empty list says why: nothing was scanned yet, nothing matches, or nothing
/// is there.
pub proof fn an_empty_list_says_why(p: PickerView)
    requires
        p.rows.len() == 0,
    ensures
        empty_ops(p).contains(OpView::Text(" "@ + empty_message(p))),
        p.state.services.len() == 0 && p.state.last_scan_ms == 0 ==> empty_message(p)
            == "waiting for the first scan…"@,
        p.state.last_scan_ms > 0 && p.filter is Some ==> empty_message(p) == "no matches"@,
        p.state.last_scan_ms > 0 && p.filter is None ==> empty_message(p)
            == "no services detected in this workspace (a for all)"@,
{
    assert(empty_ops(p)[1] == OpView::Text(" "@ + empty_message(p)));
}

} // verus!
