//! Reading `/proc`: listening sockets, process states, and who owns what.

use std::collections::HashMap;

use vstd::prelude::*;
use vstd::slice::slice_subrange;

use super::{
    listeners_view, paths_view, processes_view, Listener, ListenerView, ProcessInfo, ProcessView,
    Snapshot, SnapshotView,
};
use crate::number;
use crate::number::{bounded, decimal_of, pid_of, plain_hex_of};
use crate::order;
use crate::order::sorted;
use crate::seqs::last_where;
use crate::seqs;
use crate::text;
use crate::text::{
    joined, lines_of, opt_text, other_than, run, split_once_of, tail_run, texts, utf8_lossy,
    words_of,
};

verus! {

/// A listening socket before it is known whose it is.
#[derive(Debug, PartialEq, Eq)]
pub struct RawListener {
    pub inode: u64,
    pub addr: String,
    pub port: u16,
}

/// A [`RawListener`] with its text as characters.
#[verifier::ext_equal]
pub struct RawView {
    pub inode: u64,
    pub addr: Seq<char>,
    pub port: u16,
}

impl View for RawListener {
    type V = RawView;

    open spec fn view(&self) -> RawView {
        RawView { inode: self.inode, addr: self.addr@, port: self.port }
    }
}

/// The sockets of a vector, with their texts as characters.
pub open spec fn raws_view(v: Seq<RawListener>) -> Seq<RawView> {
    v.map_values(|l: RawListener| l@)
}

// ---------------------------------------------------------------------------
// Addresses
// ---------------------------------------------------------------------------

/// The byte `i` of `v`, counted from the lowest.
pub open spec fn byte_of(v: nat, i: nat) -> nat
    decreases i,
{
    if i == 0 {
        v % 256
    } else {
        byte_of(v / 256, (i - 1) as nat)
    }
}

/// The IPv4 address of a word that holds it lowest byte first.
pub open spec fn ipv4_text(v: nat) -> Seq<char> {
    decimal_of(byte_of(v, 0)) + seq!['.'] + decimal_of(byte_of(v, 1)) + seq!['.'] + decimal_of(
        byte_of(v, 2),
    ) + seq!['.'] + decimal_of(byte_of(v, 3))
}

/// The two groups of an IPv6 address that a word holds lowest byte first.
pub open spec fn groups_of(v: nat) -> Seq<nat> {
    seq![byte_of(v, 0) * 256 + byte_of(v, 1), byte_of(v, 2) * 256 + byte_of(v, 3)]
}

/// The number of zero groups that end before `n`.
pub open spec fn zeros_before(g: Seq<nat>, n: int) -> int
    decreases n,
{
    if n <= 0 || g[n - 1] != 0 {
        0
    } else {
        1 + zeros_before(g, n - 1)
    }
}

/// Start and length of the longest run of zero groups among the first `n`, the
/// first of several.
pub open spec fn longest_zeros(g: Seq<nat>, n: int) -> (int, int)
    decreases n,
{
    if n <= 0 {
        (0, 0)
    } else {
        let best = longest_zeros(g, n - 1);
        let here = zeros_before(g, n);
        if here > best.1 {
            (n - here, here)
        } else {
            best
        }
    }
}

/// The groups in hexadecimal, with colons between them.
pub open spec fn groups_text(g: Seq<nat>) -> Seq<char> {
    joined(g.map_values(|n: nat| plain_hex_of(n)), seq![':'])
}

/// The groups of an IPv6 address that holds an IPv4 address.
pub open spec fn is_mapped(g: Seq<nat>) -> bool {
    g[0] == 0 && g[1] == 0 && g[2] == 0 && g[3] == 0 && g[4] == 0 && g[5] == 0xffff
}

/// The IPv6 address of eight groups: the first longest run of at least two zero
/// groups is left out, and one that holds an IPv4 address shows it.
pub open spec fn ipv6_text(g: Seq<nat>) -> Seq<char> {
    let (start, len) = longest_zeros(g, 8);
    if is_mapped(g) {
        "::ffff:"@ + decimal_of(g[6] / 256) + seq!['.'] + decimal_of(g[6] % 256) + seq!['.']
            + decimal_of(g[7] / 256) + seq!['.'] + decimal_of(g[7] % 256)
    } else if len > 1 {
        groups_text(g.take(start)) + "::"@ + groups_text(g.skip(start + len))
    } else {
        groups_text(g)
    }
}

/// The four words of eight hexadecimal digits each.
pub open spec fn words_in(s: Seq<char>) -> Option<Seq<nat>> {
    match (
        bounded(s.subrange(0, 8), 16, u32::MAX as nat),
        bounded(s.subrange(8, 16), 16, u32::MAX as nat),
        bounded(s.subrange(16, 24), 16, u32::MAX as nat),
        bounded(s.subrange(24, 32), 16, u32::MAX as nat),
    ) {
        (Some(a), Some(b), Some(c), Some(d)) => Some(seq![a, b, c, d]),
        _ => None,
    }
}

/// The host that the hexadecimal address `s` stands for: four bytes or sixteen,
/// in words that hold the lowest byte first. All zeros is any address.
pub open spec fn host_in(s: Seq<char>) -> Option<Seq<char>> {
    if s.len() == 8 {
        match bounded(s, 16, u32::MAX as nat) {
            Some(v) => Some(
                if v == 0 {
                    seq!['*']
                } else {
                    ipv4_text(v)
                },
            ),
            None => None,
        }
    } else if s.len() == 32 {
        match words_in(s) {
            Some(w) => Some(
                if w == seq![0nat, 0nat, 0nat, 0nat] {
                    seq!['*']
                } else {
                    seq!['['] + ipv6_text(
                        groups_of(w[0]) + groups_of(w[1]) + groups_of(w[2]) + groups_of(w[3]),
                    ) + seq![']']
                },
            ),
            None => None,
        }
    } else {
        None
    }
}

/// Host and port of `ADDR:PORT` in hexadecimal.
pub open spec fn hex_addr_in(s: Seq<char>) -> Option<(Seq<char>, u16)> {
    match split_once_of(s, ':') {
        Some((addr, port)) => match (host_in(addr), bounded(port, 16, u16::MAX as nat)) {
            (Some(host), Some(p)) => Some((host, p as u16)),
            _ => None,
        },
        None => None,
    }
}

/// The bytes of a word, lowest first.
fn bytes_of(v: u32) -> (r: (u64, u64, u64, u64))
    ensures
        r.0 == byte_of(v as nat, 0),
        r.1 == byte_of(v as nat, 1),
        r.2 == byte_of(v as nat, 2),
        r.3 == byte_of(v as nat, 3),
        r.0 < 256 && r.1 < 256 && r.2 < 256 && r.3 < 256,
{
    let n: u64 = v as u64;
    proof {
        reveal_with_fuel(byte_of, 4);
    }
    (n % 256, (n / 256) % 256, (n / 256 / 256) % 256, (n / 256 / 256 / 256) % 256)
}

/// Appends four numbers with dots between them.
fn push_dotted(out: &mut String, a: u64, b: u64, c: u64, d: u64)
    ensures
        final(out)@ == old(out)@ + decimal_of(a as nat) + seq!['.'] + decimal_of(b as nat)
            + seq!['.'] + decimal_of(c as nat) + seq!['.'] + decimal_of(d as nat),
{
    let ghost start = out@;
    text::push_text(out, number::decimal(a).as_str());
    out.push('.');
    text::push_text(out, number::decimal(b).as_str());
    out.push('.');
    text::push_text(out, number::decimal(c).as_str());
    out.push('.');
    text::push_text(out, number::decimal(d).as_str());
    assert(out@ =~= start + decimal_of(a as nat) + seq!['.'] + decimal_of(b as nat) + seq!['.']
        + decimal_of(c as nat) + seq!['.'] + decimal_of(d as nat));
}

/// The groups as numbers.
pub open spec fn nats(g: Seq<u64>) -> Seq<nat> {
    g.map_values(|n: u64| n as nat)
}

/// Appends the groups from `from` to `to`, with colons between them.
fn push_groups(out: &mut String, g: &Vec<u64>, from: usize, to: usize)
    requires
        from <= to <= g@.len(),
    ensures
        final(out)@ == old(out)@ + groups_text(nats(g@).subrange(from as int, to as int)),
{
    let mut names: Vec<String> = Vec::new();
    let ghost part = nats(g@).subrange(from as int, to as int);
    let ghost all = part.map_values(|n: nat| plain_hex_of(n));
    let mut i: usize = from;
    assert(texts(names@) =~= all.take(0));
    while i < to
        invariant
            from <= i <= to <= g@.len(),
            part == nats(g@).subrange(from as int, to as int),
            all == part.map_values(|n: nat| plain_hex_of(n)),
            texts(names@) == all.take(i - from),
        decreases to - i,
    {
        let ghost before = texts(names@);
        names.push(number::plain_hex(g[i]));
        assert(texts(names@) =~= before.push(all[i - from]));
        assert(texts(names@) =~= all.take(i - from + 1));
        i = i + 1;
    }
    proof {
        assert(all.take(i - from) =~= all);
        reveal_strlit(":");
        assert(":"@ =~= seq![':']);
    }
    text::push_text(out, text::join(&names, ":").as_str());
}

/// An IPv6 address from its eight groups.
fn ipv6(g: &Vec<u64>) -> (r: String)
    requires
        g@.len() == 8,
        forall|i: int| 0 <= i < 8 ==> #[trigger] g@[i] < 0x10000,
    ensures
        r@ == ipv6_text(nats(g@)),
{
    let ghost n = nats(g@);
    let mut out = String::new();
    if g[0] == 0 && g[1] == 0 && g[2] == 0 && g[3] == 0 && g[4] == 0 && g[5] == 0xffff {
        text::push_text(&mut out, "::ffff:");
        push_dotted(&mut out, g[6] / 256, g[6] % 256, g[7] / 256, g[7] % 256);
        assert(Seq::<char>::empty() + "::ffff:"@ =~= "::ffff:"@);
        return out;
    }
    let mut start: usize = 0;
    let mut len: usize = 0;
    let mut here: usize = 0;
    let mut i: usize = 0;
    while i < 8
        invariant
            g@.len() == 8,
            n == nats(g@),
            i <= 8,
            here == zeros_before(n, i as int),
            here <= i,
            (start as int, len as int) == longest_zeros(n, i as int),
            start + len <= i,
        decreases 8 - i,
    {
        if g[i] == 0 {
            here = here + 1;
            if here > len {
                len = here;
                start = i + 1 - here;
            }
        } else {
            here = 0;
        }
        i = i + 1;
    }
    if len > 1 {
        push_groups(&mut out, g, 0, start);
        text::push_text(&mut out, "::");
        push_groups(&mut out, g, start + len, 8);
        proof {
            assert(n.subrange(0, start as int) =~= n.take(start as int));
            assert(n.subrange(start + len, 8) =~= n.skip(start + len));
            assert(out@ =~= groups_text(n.take(start as int)) + "::"@ + groups_text(
                n.skip(start + len),
            ));
        }
    } else {
        push_groups(&mut out, g, 0, 8);
        assert(n.subrange(0, 8) =~= n);
        assert(out@ =~= groups_text(n));
    }
    out
}

fn push_word(g: &mut Vec<u64>, v: u32)
    requires
        forall|i: int| 0 <= i < old(g)@.len() ==> #[trigger] old(g)@[i] < 0x10000,
    ensures
        nats(final(g)@) == nats(old(g)@) + groups_of(v as nat),
        final(g)@.len() == old(g)@.len() + 2,
        forall|i: int| 0 <= i < final(g)@.len() ==> #[trigger] final(g)@[i] < 0x10000,
{
    let ghost start = nats(g@);
    let b = bytes_of(v);
    g.push(b.0 * 256 + b.1);
    g.push(b.2 * 256 + b.3);
    assert(nats(g@) =~= start + groups_of(v as nat));
}

/// One word of eight hexadecimal digits.
fn word(v: &Vec<char>, from: usize) -> (r: Option<u32>)
    requires
        from + 8 <= v@.len(),
    ensures
        r is Some <==> bounded(v@.subrange(from as int, from + 8), 16, u32::MAX as nat) is Some,
        r matches Some(w) ==> bounded(v@.subrange(from as int, from + 8), 16, u32::MAX as nat)
            == Some(w as nat),
{
    let total: usize = v.len();
    assert(from + 8 <= total);
    match number::parse_bounded(text::piece(v, from, from + 8).as_str(), 16, u32::MAX as u64) {
        Some(w) => Some(w as u32),
        None => None,
    }
}

fn host(s: &str) -> (r: Option<String>)
    ensures
        opt_text(r) == host_in(s@),
{
    let v = text::chars_of(s);
    proof {
        reveal_strlit("*");
        assert("*"@ =~= seq!['*']);
    }
    if v.len() == 8 {
        assert(s@.subrange(0, 8) =~= s@);
        match word(&v, 0) {
            Some(w) => {
                if w == 0 {
                    Some("*".to_owned())
                } else {
                    let b = bytes_of(w);
                    let mut out = String::new();
                    push_dotted(&mut out, b.0, b.1, b.2, b.3);
                    assert(out@ =~= ipv4_text(w as nat));
                    Some(out)
                }
            },
            None => None,
        }
    } else if v.len() == 32 {
        match (word(&v, 0), word(&v, 8), word(&v, 16), word(&v, 24)) {
            (Some(a), Some(b), Some(c), Some(d)) => {
                let ghost w = seq![a as nat, b as nat, c as nat, d as nat];
                assert(words_in(s@) == Some(w));
                if a == 0 && b == 0 && c == 0 && d == 0 {
                    assert(w =~= seq![0nat, 0nat, 0nat, 0nat]);
                    Some("*".to_owned())
                } else {
                    proof {
                        if w == seq![0nat, 0nat, 0nat, 0nat] {
                            assert(w[0] == 0 && w[1] == 0 && w[2] == 0 && w[3] == 0);
                        }
                    }
                    let mut g: Vec<u64> = Vec::new();
                    push_word(&mut g, a);
                    push_word(&mut g, b);
                    push_word(&mut g, c);
                    push_word(&mut g, d);
                    assert(nats(g@) =~= groups_of(a as nat) + groups_of(b as nat) + groups_of(
                        c as nat,
                    ) + groups_of(d as nat));
                    let mut out = String::new();
                    out.push('[');
                    text::push_text(&mut out, ipv6(&g).as_str());
                    out.push(']');
                    assert(out@ =~= seq!['['] + ipv6_text(nats(g@)) + seq![']']);
                    Some(out)
                }
            },
            _ => None,
        }
    } else {
        None
    }
}

/// Reads `ADDR:PORT` in hexadecimal, such as `0100007F:1F90`.
pub fn parse_hex_addr(s: &str) -> (r: Option<(String, u16)>)
    ensures
        r is Some <==> hex_addr_in(s@) is Some,
        r matches Some((host, port)) ==> hex_addr_in(s@) == Some((host@, port)),
{
    match text::split_once(s, ':') {
        Some((addr, port)) => match (
            host(addr.as_str()),
            number::parse_bounded(port.as_str(), 16, u16::MAX as u64),
        ) {
            (Some(h), Some(p)) => Some((h, p as u16)),
            _ => None,
        },
        None => None,
    }
}

// ---------------------------------------------------------------------------
// Socket tables
// ---------------------------------------------------------------------------

/// The listening socket that a row of a socket table stands for: state `0A` in
/// the fourth column, local address in the second, inode in the tenth.
pub open spec fn raw_in(line: Seq<char>) -> Option<RawView> {
    let w = words_of(line);
    if w.len() < 10 || w[3] != "0A"@ {
        None
    } else {
        match (bounded(w[9], 10, u64::MAX as nat), hex_addr_in(w[1])) {
            (Some(inode), Some((addr, port))) => Some(RawView { inode: inode as u64, addr, port }),
            _ => None,
        }
    }
}

/// The listening sockets of these rows.
pub open spec fn raws_in(lines: Seq<Seq<char>>) -> Seq<RawView>
    decreases lines.len(),
{
    if lines.len() == 0 {
        seq![]
    } else {
        match raw_in(lines.last()) {
            Some(l) => raws_in(lines.drop_last()).push(l),
            None => raws_in(lines.drop_last()),
        }
    }
}

/// The rows of a socket table behind its header.
pub open spec fn table_rows(s: Seq<char>) -> Seq<Seq<char>> {
    if lines_of(s).len() > 0 {
        lines_of(s).skip(1)
    } else {
        seq![]
    }
}

fn raw(line: &str) -> (r: Option<RawListener>)
    ensures
        r is Some <==> raw_in(line@) is Some,
        r matches Some(l) ==> raw_in(line@) == Some(l@),
{
    let w = text::words(line);
    let ghost all = texts(w@);
    if w.len() < 10 {
        return None;
    }
    assert(all[1] == w@[1]@ && all[3] == w@[3]@ && all[9] == w@[9]@);
    if !text::same(w[3].as_str(), "0A") {
        return None;
    }
    match (
        number::parse_bounded(w[9].as_str(), 10, u64::MAX),
        parse_hex_addr(w[1].as_str()),
    ) {
        (Some(inode), Some((addr, port))) => Some(RawListener { inode, addr, port }),
        _ => None,
    }
}

/// Reads `/proc/net/tcp` or `/proc/net/tcp6`: the rows in state LISTEN.
pub fn parse_net_tcp(s: &str) -> (r: Vec<RawListener>)
    ensures
        raws_view(r@) == raws_in(table_rows(s@)),
{
    let lines = text::lines(s);
    let ghost all = texts(lines@);
    let ghost rows = table_rows(s@);
    let mut out: Vec<RawListener> = Vec::new();
    assert(raws_view(out@) =~= seq![]);
    assert(all.len() == lines@.len());
    if lines.len() == 0 {
        return out;
    }
    let mut i: usize = 1;
    while i < lines.len()
        invariant
            1 <= i <= lines@.len(),
            all == texts(lines@),
            rows == all.skip(1),
            raws_view(out@) == raws_in(rows.take(i - 1)),
        decreases lines.len() - i,
    {
        proof {
            assert(rows.take(i as int).drop_last() =~= rows.take(i - 1));
            assert(rows.take(i as int).last() == all[i as int]);
        }
        if let Some(l) = raw(lines[i].as_str()) {
            let ghost before = raws_view(out@);
            let ghost v = l@;
            out.push(l);
            assert(raws_view(out@) =~= before.push(v));
        }
        i = i + 1;
    }
    assert(rows.take(i - 1) =~= rows);
    out
}

// ---------------------------------------------------------------------------
// Process states
// ---------------------------------------------------------------------------

/// Where the first `(` stands.
pub open spec fn open_at(s: Seq<char>) -> int {
    run(s, other_than('(')) as int
}

/// Where the last `)` stands, or -1.
pub open spec fn close_at(s: Seq<char>) -> int {
    s.len() - 1 - tail_run(s, other_than(')'))
}

/// The brackets of a process state, where it has both, stand in their order.
pub open spec fn well_bracketed(s: Seq<char>) -> bool {
    open_at(s) < s.len() && close_at(s) >= 0 ==> open_at(s) < close_at(s)
}

/// Parent and command of a process state: the command stands between the first
/// `(` and the last `)`, the parent is the second word behind it.
pub open spec fn stat_in(s: Seq<char>) -> Option<(u32, Seq<char>)> {
    if open_at(s) >= s.len() || close_at(s) < 0 {
        None
    } else {
        let rest = words_of(s.skip(close_at(s) + 1));
        if rest.len() < 2 {
            None
        } else {
            match pid_of(rest[1]) {
                Some(ppid) => Some((ppid, s.subrange(open_at(s) + 1, close_at(s)))),
                None => None,
            }
        }
    }
}

/// The places of the first `(` and the last `)`, where there are both.
fn brackets(v: &Vec<char>) -> (r: Option<(usize, usize)>)
    ensures
        r is Some <==> open_at(v@) < v@.len() && close_at(v@) >= 0,
        r matches Some((a, b)) ==> a == open_at(v@) && b == close_at(v@) && a < v@.len() && b
            < v@.len(),
{
    let a = text::find_char(v, 0, '(');
    assert(v@.skip(0) =~= v@);
    let mut b: usize = v.len();
    while b > 0 && v[b - 1] != ')'
        invariant
            b <= v@.len(),
            forall|j: int| b <= j < v@.len() ==> #[trigger] v@[j] != ')',
        decreases b,
    {
        b = b - 1;
    }
    proof {
        text::lemma_tail_run_unique(v@, other_than(')'), v@.len() - b);
    }
    if a < v.len() && b > 0 {
        Some((a, b - 1))
    } else {
        None
    }
}

/// Whether the brackets of a process state stand in their order.
pub fn is_well_bracketed(s: &str) -> (r: bool)
    ensures
        r == well_bracketed(s@),
{
    match brackets(&text::chars_of(s)) {
        Some((a, b)) => a < b,
        None => true,
    }
}

/// Reads `/proc/<pid>/stat`: parent and command. The command may hold white
/// space and brackets itself.
pub fn parse_stat(s: &str) -> (r: Option<(u32, String)>)
    requires
        well_bracketed(s@),
    ensures
        r is Some <==> stat_in(s@) is Some,
        r matches Some((ppid, name)) ==> stat_in(s@) == Some((ppid, name@)),
{
    let v = text::chars_of(s);
    match brackets(&v) {
        Some((a, b)) => {
            let total: usize = v.len();
            assert(b < total);
            let rest = text::words(text::piece(&v, b + 1, v.len()).as_str());
            assert(s@.subrange(b + 1, s@.len() as int) =~= s@.skip(b + 1));
            let ghost all = texts(rest@);
            if rest.len() < 2 {
                return None;
            }
            assert(all[1] == rest@[1]@);
            match number::parse_pid(rest[1].as_str()) {
                Some(ppid) => Some((ppid, text::piece(&v, a + 1, b))),
                None => None,
            }
        },
        None => None,
    }
}

/// The length of the prefix of `s` without a zero byte.
pub open spec fn arg_len(s: Seq<u8>) -> nat
    decreases s.len(),
{
    if s.len() == 0 || s[0] == 0 {
        0
    } else {
        1 + arg_len(s.drop_first())
    }
}

/// The arguments of a command line: its maximal runs without a zero byte.
pub open spec fn args_of(s: Seq<u8>) -> Seq<Seq<u8>>
    decreases s.len(),
{
    if s.len() == 0 {
        seq![]
    } else if s[0] == 0 {
        args_of(s.drop_first())
    } else if arg_len(s) > s.len() {
        seq![]
    } else {
        seq![s.take(arg_len(s) as int)] + args_of(s.skip(arg_len(s) as int))
    }
}

/// A command line as text: its arguments with spaces between them.
pub open spec fn command_of(s: Seq<u8>) -> Seq<char> {
    joined(args_of(s).map_values(|a: Seq<u8>| utf8_lossy(a)), seq![' '])
}

proof fn lemma_arg_len(s: Seq<u8>, k: int)
    requires
        0 <= k <= s.len(),
        forall|i: int| 0 <= i < k ==> #[trigger] s[i] != 0,
        k < s.len() ==> s[k] == 0,
    ensures
        arg_len(s) == k,
    decreases s.len(),
{
    if s.len() > 0 && k > 0 {
        assert(s[0] != 0);
        let t = s.drop_first();
        assert forall|i: int| 0 <= i < k - 1 implies #[trigger] t[i] != 0 by {
            assert(s[i + 1] != 0);
        }
        lemma_arg_len(t, k - 1);
    }
}

/// Reads `/proc/<pid>/cmdline`: arguments that zero bytes end.
pub fn cmdline_to_string(bytes: &[u8]) -> (r: String)
    ensures
        r@ == command_of(bytes@),
{
    let ghost s = bytes@;
    let ghost f = |a: Seq<u8>| utf8_lossy(a);
    let mut names: Vec<String> = Vec::new();
    let mut i: usize = 0;
    proof {
        assert(s.skip(0) =~= s);
        assert(texts(names@) + args_of(s).map_values(f) =~= args_of(s).map_values(f));
    }
    while i < bytes.len()
        invariant
            s == bytes@,
            i <= s.len(),
            f == (|a: Seq<u8>| utf8_lossy(a)),
            args_of(s).map_values(f) == texts(names@) + args_of(s.skip(i as int)).map_values(f),
        decreases bytes.len() - i,
    {
        let ghost t = s.skip(i as int);
        if bytes[i] == 0 {
            assert(t.drop_first() =~= s.skip(i + 1));
            i = i + 1;
        } else {
            let mut j: usize = i;
            while j < bytes.len() && bytes[j] != 0
                invariant
                    s == bytes@,
                    i <= j <= s.len(),
                    forall|k: int| i <= k < j ==> #[trigger] s[k] != 0,
                decreases bytes.len() - j,
            {
                j = j + 1;
            }
            proof {
                assert forall|k: int| 0 <= k < j - i implies #[trigger] t[k] != 0 by {
                    assert(s[i + k] != 0);
                }
                lemma_arg_len(t, j - i);
                assert(t.take(j - i) =~= s.subrange(i as int, j as int));
                assert(t.skip(j - i) =~= s.skip(j as int));
            }
            let ghost before = texts(names@);
            let ghost rest = args_of(s.skip(j as int));
            let ghost arg = s.subrange(i as int, j as int);
            names.push(text::from_utf8_lossy(slice_subrange(bytes, i, j)));
            proof {
                assert(texts(names@) =~= before.push(utf8_lossy(arg)));
                assert(args_of(t) == seq![arg] + rest);
                assert(before + (seq![arg] + rest).map_values(f) =~= texts(names@)
                    + rest.map_values(f));
            }
            i = j;
        }
    }
    proof {
        assert(s.skip(i as int) =~= seq![]);
        assert(texts(names@) + Seq::<Seq<u8>>::empty().map_values(f) =~= texts(names@));
        reveal_strlit(" ");
        assert(" "@ =~= seq![' ']);
    }
    text::join(&names, " ")
}

/// The inode of the socket that a file descriptor points at.
pub open spec fn inode_in(target: Seq<char>) -> Option<u64> {
    let p = "socket:["@;
    if p.is_prefix_of(target) && "]"@.is_suffix_of(target.skip(p.len() as int)) {
        let t = target.skip(p.len() as int);
        match bounded(t.take(t.len() - "]"@.len()), 10, u64::MAX as nat) {
            Some(n) => Some(n as u64),
            None => None,
        }
    } else {
        None
    }
}

/// The inode of the socket that a file descriptor points at, such as
/// `socket:[4242]`.
pub fn socket_inode(target: &str) -> (r: Option<u64>)
    ensures
        r == inode_in(target@),
{
    match text::strip_prefix(target, "socket:[") {
        Some(rest) => match text::strip_suffix(rest.as_str(), "]") {
            Some(n) => number::parse_bounded(n.as_str(), 10, u64::MAX),
            None => None,
        },
        None => None,
    }
}

// ---------------------------------------------------------------------------
// Putting a scan together
// ---------------------------------------------------------------------------

/// What was read of one entry of `/proc`.
#[derive(Debug)]
pub struct ProcEntry {
    /// Name of the entry; a process has its number.
    pub name: String,
    /// Its `stat` file, where it could be read.
    pub stat: Option<String>,
    /// Its `cmdline` file, where it could be read.
    pub cmdline: Option<Vec<u8>>,
    /// Where its file descriptors point.
    pub links: Vec<String>,
    /// Its working directory, where it could be read.
    pub cwd: Option<String>,
}

/// A [`ProcEntry`] with its texts as characters.
#[verifier::ext_equal]
pub struct EntryView {
    pub name: Seq<char>,
    pub stat: Option<Seq<char>>,
    pub cmdline: Option<Seq<u8>>,
    pub links: Seq<Seq<char>>,
    pub cwd: Option<Seq<char>>,
}

impl View for ProcEntry {
    type V = EntryView;

    open spec fn view(&self) -> EntryView {
        EntryView {
            name: self.name@,
            stat: opt_text(self.stat),
            cmdline: match self.cmdline {
                Some(b) => Some(b@),
                None => None,
            },
            links: texts(self.links@),
            cwd: opt_text(self.cwd),
        }
    }
}

/// The entries of a vector, with their texts as characters.
pub open spec fn entries_view(v: Seq<ProcEntry>) -> Seq<EntryView> {
    v.map_values(|e: ProcEntry| e@)
}

/// A process that an entry tells of.
#[verifier::ext_equal]
pub struct EntryProcess {
    pub pid: u32,
    pub name: Seq<char>,
    pub info: ProcessView,
}

/// The process of an entry: one with a number for a name and a readable state.
pub open spec fn process_of(e: EntryView) -> Option<EntryProcess> {
    match (pid_of(e.name), e.stat) {
        (Some(pid), Some(stat)) => match stat_in(stat) {
            Some((ppid, name)) => Some(
                EntryProcess {
                    pid,
                    name,
                    info: ProcessView {
                        ppid,
                        command: match e.cmdline {
                            Some(b) => command_of(b),
                            None => seq![],
                        },
                    },
                },
            ),
            None => None,
        },
        _ => None,
    }
}

/// The sockets with this inode.
pub open spec fn is_inode(inode: u64) -> spec_fn(RawView) -> bool {
    |l: RawView| l.inode == inode
}

/// The listener that a file descriptor of a process is; of several sockets with
/// its inode the last counts.
pub open spec fn link_listener(link: Seq<char>, raw: Seq<RawView>, p: EntryProcess) -> Option<
    ListenerView,
> {
    match inode_in(link) {
        Some(inode) => {
            let k = last_where(raw, is_inode(inode));
            if k >= 0 {
                Some(
                    ListenerView {
                        pid: p.pid,
                        port: raw[k].port,
                        addr: raw[k].addr,
                        process_name: p.name,
                    },
                )
            } else {
                None
            }
        },
        None => None,
    }
}

/// The listeners among the file descriptors of a process.
pub open spec fn links_listeners(links: Seq<Seq<char>>, raw: Seq<RawView>, p: EntryProcess) -> Seq<
    ListenerView,
>
    decreases links.len(),
{
    if links.len() == 0 {
        seq![]
    } else {
        let out = links_listeners(links.drop_last(), raw, p);
        match link_listener(links.last(), raw, p) {
            Some(l) => out.push(l),
            None => out,
        }
    }
}

/// The listeners of an entry.
pub open spec fn entry_listeners(e: EntryView, raw: Seq<RawView>) -> Seq<ListenerView> {
    match process_of(e) {
        Some(p) => links_listeners(e.links, raw, p),
        None => seq![],
    }
}

/// The listeners of these entries, one after another.
pub open spec fn all_listeners(es: Seq<EntryView>, raw: Seq<RawView>) -> Seq<ListenerView>
    decreases es.len(),
{
    if es.len() == 0 {
        seq![]
    } else {
        all_listeners(es.drop_last(), raw) + entry_listeners(es.last(), raw)
    }
}

/// The process table of these entries.
pub open spec fn all_processes(es: Seq<EntryView>) -> Map<u32, ProcessView>
    decreases es.len(),
{
    if es.len() == 0 {
        Map::empty()
    } else {
        match process_of(es.last()) {
            Some(p) => all_processes(es.drop_last()).insert(p.pid, p.info),
            None => all_processes(es.drop_last()),
        }
    }
}

/// The working directories of the entries that own a listener.
pub open spec fn all_cwds(es: Seq<EntryView>, raw: Seq<RawView>) -> Map<u32, Seq<char>>
    decreases es.len(),
{
    if es.len() == 0 {
        Map::empty()
    } else {
        let out = all_cwds(es.drop_last(), raw);
        match (process_of(es.last()), es.last().cwd) {
            (Some(p), Some(cwd)) => if entry_listeners(es.last(), raw).len() > 0 {
                out.insert(p.pid, cwd)
            } else {
                out
            },
            _ => out,
        }
    }
}

/// By process, then by port.
pub open spec fn by_pid_and_port() -> spec_fn(ListenerView, ListenerView) -> bool {
    |a: ListenerView, b: ListenerView| a.pid < b.pid || (a.pid == b.pid && a.port <= b.port)
}

/// `s` without an element that equals the one before it.
pub open spec fn without_repeats(s: Seq<ListenerView>) -> Seq<ListenerView>
    decreases s.len(),
{
    if s.len() == 0 {
        s
    } else {
        let out = without_repeats(s.drop_last());
        if out.len() > 0 && out.last() == s.last() {
            out
        } else {
            out.push(s.last())
        }
    }
}

/// The scan that these entries and socket tables make.
pub open spec fn assembled(es: Seq<EntryView>, raw: Seq<RawView>) -> SnapshotView {
    SnapshotView {
        listeners: without_repeats(sorted(all_listeners(es, raw), by_pid_and_port())),
        processes: all_processes(es),
        cwds: all_cwds(es, raw),
    }
}

/// Finds the last socket with this inode.
fn find_inode(raw: &Vec<RawListener>, inode: u64) -> (r: Option<usize>)
    ensures
        r is Some <==> last_where(raws_view(raw@), is_inode(inode)) >= 0,
        r matches Some(k) ==> k == last_where(raws_view(raw@), is_inode(inode)) && k < raw@.len(),
{
    let ghost rows = raws_view(raw@);
    let mut i: usize = raw.len();
    while i > 0
        invariant
            i <= raw@.len(),
            rows == raws_view(raw@),
            forall|j: int| i <= j < rows.len() ==> !is_inode(inode)(#[trigger] rows[j]),
        decreases i,
    {
        if raw[i - 1].inode == inode {
            proof {
                assert(is_inode(inode)(rows[i - 1]));
                seqs::lemma_last_where_unique(rows, is_inode(inode), i - 1);
            }
            return Some(i - 1);
        }
        i = i - 1;
    }
    proof {
        seqs::lemma_last_where_unique(rows, is_inode(inode), -1);
    }
    None
}

/// Appends the listeners among the file descriptors of a process.
fn push_listeners(
    out: &mut Vec<Listener>,
    links: &Vec<String>,
    raw: &Vec<RawListener>,
    pid: u32,
    name: &str,
    Ghost(p): Ghost<EntryProcess>,
)
    requires
        p.pid == pid,
        p.name == name@,
    ensures
        listeners_view(final(out)@) == listeners_view(old(out)@) + links_listeners(
            texts(links@),
            raws_view(raw@),
            p,
        ),
{
    let ghost start = listeners_view(out@);
    let ghost all = texts(links@);
    let ghost rows = raws_view(raw@);
    let mut i: usize = 0;
    assert(start + links_listeners(all.take(0), rows, p) =~= start);
    while i < links.len()
        invariant
            i <= links@.len(),
            all == texts(links@),
            rows == raws_view(raw@),
            p.pid == pid,
            p.name == name@,
            listeners_view(out@) == start + links_listeners(all.take(i as int), rows, p),
        decreases links.len() - i,
    {
        proof {
            assert(all.take(i + 1).drop_last() =~= all.take(i as int));
            assert(all.take(i + 1).last() == all[i as int]);
        }
        if let Some(inode) = socket_inode(links[i].as_str()) {
            if let Some(k) = find_inode(raw, inode) {
                let ghost before = listeners_view(out@);
                out.push(
                    Listener {
                        pid,
                        port: raw[k].port,
                        addr: raw[k].addr.clone(),
                        process_name: name.to_owned(),
                    },
                );
                proof {
                    let l = link_listener(all[i as int], rows, p)->0;
                    assert(listeners_view(out@) =~= before.push(l));
                    assert((start + links_listeners(all.take(i as int), rows, p)).push(l) =~= start
                        + links_listeners(all.take(i as int), rows, p).push(l));
                }
            }
        }
        i = i + 1;
    }
    assert(all.take(i as int) =~= all);
}

fn same_listener(a: &Listener, b: &Listener) -> (r: bool)
    ensures
        r == (a@ == b@),
{
    a.pid == b.pid && a.port == b.port && text::same(a.addr.as_str(), b.addr.as_str())
        && text::same(a.process_name.as_str(), b.process_name.as_str())
}

/// Drops listeners that equal the one before them.
fn drop_repeats(v: Vec<Listener>) -> (r: Vec<Listener>)
    ensures
        listeners_view(r@) == without_repeats(listeners_view(v@)),
{
    let ghost all = listeners_view(v@);
    let mut out: Vec<Listener> = Vec::new();
    let mut i: usize = 0;
    assert(listeners_view(out@) =~= all.take(0));
    while i < v.len()
        invariant
            i <= v@.len(),
            all == listeners_view(v@),
            listeners_view(out@) == without_repeats(all.take(i as int)),
        decreases v.len() - i,
    {
        proof {
            assert(all.take(i + 1).drop_last() =~= all.take(i as int));
            assert(all.take(i + 1).last() == v@[i as int]@);
        }
        let ghost before = listeners_view(out@);
        let n: usize = out.len();
        assert(before.len() == n);
        assert(n > 0 ==> before.last() == out@[n - 1]@);
        if !(n > 0 && same_listener(&out[n - 1], &v[i])) {
            out.push(
                Listener {
                    pid: v[i].pid,
                    port: v[i].port,
                    addr: v[i].addr.clone(),
                    process_name: v[i].process_name.clone(),
                },
            );
            assert(out@.last()@ =~= v@[i as int]@);
            assert(listeners_view(out@) =~= before.push(v@[i as int]@));
        }
        i = i + 1;
    }
    assert(all.take(i as int) =~= all);
    out
}

/// Puts a scan together from the entries of `/proc` and its socket tables:
/// every process with its parent and command line, the listeners by process and
/// port, and the working directories of their processes.
pub fn assemble(entries: &Vec<ProcEntry>, raw: &Vec<RawListener>) -> (r: Snapshot)
    requires
        forall|i: int|
            0 <= i < entries@.len() && pid_of((#[trigger] entries@[i])@.name) is Some
                ==> (entries@[i]@.stat matches Some(s) ==> well_bracketed(s)),
    ensures
        r@ == assembled(entries_view(entries@), raws_view(raw@)),
{
    broadcast use vstd::std_specs::hash::group_hash_axioms;

    let ghost es = entries_view(entries@);
    let ghost rows = raws_view(raw@);
    let mut listeners: Vec<Listener> = Vec::new();
    let mut processes: HashMap<u32, ProcessInfo> = HashMap::new();
    let mut cwds: HashMap<u32, String> = HashMap::new();
    let mut i: usize = 0;
    proof {
        assert(listeners_view(listeners@) =~= all_listeners(es.take(0), rows));
        assert(processes_view(processes@) =~= Map::empty());
        assert(paths_view(cwds@) =~= Map::empty());
    }
    while i < entries.len()
        invariant
            i <= entries@.len(),
            es == entries_view(entries@),
            rows == raws_view(raw@),
            forall|i: int|
                0 <= i < entries@.len() && pid_of((#[trigger] entries@[i])@.name) is Some
                    ==> (entries@[i]@.stat matches Some(s) ==> well_bracketed(s)),
            listeners_view(listeners@) == all_listeners(es.take(i as int), rows),
            processes_view(processes@) == all_processes(es.take(i as int)),
            paths_view(cwds@) == all_cwds(es.take(i as int), rows),
        decreases entries.len() - i,
    {
        let e = &entries[i];
        let ghost done = es.take(i as int);
        proof {
            assert(es.take(i + 1).drop_last() =~= done);
            assert(es.take(i + 1).last() == e@);
            assert(all_listeners(done, rows) + Seq::<ListenerView>::empty() =~= all_listeners(
                done,
                rows,
            ));
        }
        if let Some(pid) = number::parse_pid(e.name.as_str()) {
            if let Some(stat) = &e.stat {
                if let Some((ppid, name)) = parse_stat(stat.as_str()) {
                    let command = match &e.cmdline {
                        Some(b) => cmdline_to_string(b.as_slice()),
                        None => String::new(),
                    };
                    let ghost p = process_of(e@)->0;
                    let ghost before = processes@;
                    let info = ProcessInfo { ppid, command };
                    assert(info@ =~= p.info);
                    processes.insert(pid, info);
                    assert(processes_view(processes@) =~= processes_view(before).insert(
                        pid,
                        p.info,
                    ));
                    let had: usize = listeners.len();
                    push_listeners(&mut listeners, &e.links, raw, pid, name.as_str(), Ghost(p));
                    proof {
                        assert(listeners_view(listeners@).len() == listeners@.len());
                        assert(listeners@.len() == had + entry_listeners(e@, rows).len());
                    }
                    if listeners.len() > had {
                        if let Some(cwd) = &e.cwd {
                            let ghost before = cwds@;
                            cwds.insert(pid, cwd.clone());
                            assert(paths_view(cwds@) =~= paths_view(before).insert(pid, cwd@));
                        }
                    }
                }
            }
        }
        i = i + 1;
    }
    proof {
        assert(es.take(i as int) =~= es);
        order::lemma_sorted_map(
            listeners@,
            |l: Listener| l@,
            |a: Listener, b: Listener| by_pid_and_port()(a@, b@),
            by_pid_and_port(),
        );
    }
    let ordered = order::sort(
        listeners,
        |a: &Listener, b: &Listener| -> (c: bool)
            ensures
                c == by_pid_and_port()(a@, b@)
            { a.pid < b.pid || (a.pid == b.pid && a.port <= b.port) },
        Ghost(|a: Listener, b: Listener| by_pid_and_port()(a@, b@)),
    );
    Snapshot { listeners: drop_repeats(ordered), processes, cwds }
}

// ---------------------------------------------------------------------------
// Laws
// ---------------------------------------------------------------------------

/// The groups from `a` to `b` are all zero.
pub open spec fn all_zero(g: Seq<nat>, a: int, b: int) -> bool {
    0 <= a <= b && forall|i: int| a <= i < b ==> #[trigger] g[i] == 0
}

proof fn lemma_zeros_before(g: Seq<nat>, n: int)
    requires
        0 <= n <= g.len(),
    ensures
        0 <= zeros_before(g, n) <= n,
        all_zero(g, n - zeros_before(g, n), n),
        forall|a: int| #[trigger] all_zero(g, a, n) ==> n - a <= zeros_before(g, n),
    decreases n,
{
    if n > 0 && g[n - 1] == 0 {
        lemma_zeros_before(g, n - 1);
        assert forall|a: int| #[trigger] all_zero(g, a, n) implies n - a <= zeros_before(g, n) by {
            if a < n {
                assert(all_zero(g, a, n - 1));
            }
        }
    } else {
        assert forall|a: int| #[trigger] all_zero(g, a, n) implies n - a <= zeros_before(g, n) by {
            if a < n {
                assert(g[n - 1] == 0);
            }
        }
    }
}

/// The run of groups that an address leaves out is all zero, no longer run is,
/// and no run of its length starts earlier.
pub proof fn the_first_longest_zero_run_is_left_out(g: Seq<nat>, n: int)
    requires
        0 <= n <= g.len(),
    ensures
        ({
            let (start, len) = longest_zeros(g, n);
            &&& 0 <= start && 0 <= len && start + len <= n
            &&& all_zero(g, start, start + len)
            &&& forall|a: int, b: int| b <= n && #[trigger] all_zero(g, a, b) ==> b - a <= len
            &&& forall|a: int, b: int|
                b <= n && #[trigger] all_zero(g, a, b) && b - a == len && len > 0 ==> start <= a
        }),
    decreases n,
{
    if n > 0 {
        the_first_longest_zero_run_is_left_out(g, n - 1);
        lemma_zeros_before(g, n);
        let (start, len) = longest_zeros(g, n);
        let old_best = longest_zeros(g, n - 1);
        assert forall|a: int, b: int| b <= n && #[trigger] all_zero(g, a, b) implies b - a
            <= len by {
            if b == n {
                assert(all_zero(g, a, n));
            }
        }
        assert forall|a: int, b: int|
            b <= n && #[trigger] all_zero(g, a, b) && b - a == len && len > 0 implies start
            <= a by {
            if b == n && zeros_before(g, n) <= old_best.1 {
                assert(all_zero(g, a, n));
            }
        }
    }
}

/// No listener of a scan equals the one before it.
pub proof fn repeats_are_dropped(s: Seq<ListenerView>)
    ensures
        forall|i: int|
            0 < i < without_repeats(s).len() ==> #[trigger] without_repeats(s)[i]
                != without_repeats(s)[i - 1],
        forall|x: ListenerView| #[trigger] without_repeats(s).contains(x) <==> s.contains(x),
    decreases s.len(),
{
    if s.len() > 0 {
        let t = s.drop_last();
        let out = without_repeats(t);
        let all = without_repeats(s);
        repeats_are_dropped(t);
        assert forall|x: ListenerView| #[trigger] all.contains(x) <==> s.contains(x) by {
            if s.contains(x) {
                let i = choose|i: int| 0 <= i < s.len() && s[i] == x;
                if i < t.len() {
                    assert(t[i] == x);
                    assert(out.contains(x));
                    let k = choose|k: int| 0 <= k < out.len() && out[k] == x;
                    assert(all[k] == x);
                } else {
                    assert(all.last() == x);
                    assert(all[all.len() - 1] == x);
                }
            }
            if all.contains(x) {
                let k = choose|k: int| 0 <= k < all.len() && all[k] == x;
                if k < out.len() {
                    assert(out[k] == x);
                    assert(out.contains(x));
                    assert(t.contains(x));
                    let i = choose|i: int| 0 <= i < t.len() && t[i] == x;
                    assert(s[i] == x);
                } else {
                    assert(s[s.len() - 1] == x);
                }
            }
        }
        assert forall|i: int| 0 < i < all.len() implies #[trigger] all[i] != all[i - 1] by {
            if i < out.len() {
                assert(out[i] != out[i - 1]);
            }
        }
    }
}

proof fn lemma_bytes(a: nat, b: nat, c: nat, d: nat)
    requires
        a < 256,
        b < 256,
        c < 256,
        d < 256,
    ensures
        ({
            let v = a + 256 * b + 65536 * c + 16777216 * d;
            &&& byte_of(v, 0) == a
            &&& byte_of(v, 1) == b
            &&& byte_of(v, 2) == c
            &&& byte_of(v, 3) == d
        }),
{
    reveal_with_fuel(byte_of, 4);
    let v = a + 256 * b + 65536 * c + 16777216 * d;
    assert(v % 256 == a && v / 256 == b + 256 * c + 65536 * d);
    let w = b + 256 * c + 65536 * d;
    assert(w % 256 == b && w / 256 == c + 256 * d);
    let x = c + 256 * d;
    assert(x % 256 == c && x / 256 == d);
}

/// The hexadecimal of an IPv4 address holds its bytes in reverse; it is shown
/// with dots, and any address as a star.
pub proof fn an_ipv4_address_is_shown_in_order(s: Seq<char>, a: nat, b: nat, c: nat, d: nat)
    requires
        s.len() == 8,
        number::all_digits(s, 16),
        a < 256 && b < 256 && c < 256 && d < 256,
        number::value_of(s, 16) == a + 256 * b + 65536 * c + 16777216 * d,
    ensures
        a + b + c + d > 0 ==> host_in(s) == Some(
            decimal_of(a) + "."@ + decimal_of(b) + "."@ + decimal_of(c) + "."@ + decimal_of(d),
        ),
        a + b + c + d == 0 ==> host_in(s) == Some("*"@),
{
    lemma_bytes(a, b, c, d);
    reveal_strlit(".");
    reveal_strlit("*");
    assert("."@ =~= seq!['.']);
    assert("*"@ =~= seq!['*']);
    assert(number::digit_of(s[0], 16) is Some);
    assert(s[0] != '+');
}

/// A word of an IPv6 address holds two groups, its bytes in reverse.
pub proof fn an_ipv6_word_holds_two_groups(a: nat, b: nat, c: nat, d: nat)
    requires
        a < 256 && b < 256 && c < 256 && d < 256,
    ensures
        groups_of(a + 256 * b + 65536 * c + 16777216 * d) == seq![256 * a + b, 256 * c + d],
{
    lemma_bytes(a, b, c, d);
    assert(groups_of(a + 256 * b + 65536 * c + 16777216 * d) =~= seq![256 * a + b, 256 * c + d]);
}

/// An address in which no two zeros stand side by side shows all its groups; in
/// any other some are left out, and those are zero.
pub proof fn an_ipv6_address_shows_its_groups(g: Seq<nat>)
    requires
        g.len() == 8,
        !is_mapped(g),
    ensures
        (forall|i: int| 0 <= i < 7 ==> (#[trigger] g[i] != 0 || g[i + 1] != 0)) ==> ipv6_text(g)
            == groups_text(g),
        (exists|i: int| 0 <= i < 7 && #[trigger] g[i] == 0 && g[i + 1] == 0) ==> exists|
            a: int,
            b: int,
        |
            b - a >= 2 && b <= 8 && #[trigger] all_zero(g, a, b) && ipv6_text(g) == groups_text(
                g.take(a),
            ) + "::"@ + groups_text(g.skip(b)),
{
    the_first_longest_zero_run_is_left_out(g, 8);
    let (start, len) = longest_zeros(g, 8);
    if exists|i: int| 0 <= i < 7 && #[trigger] g[i] == 0 && g[i + 1] == 0 {
        let i = choose|i: int| 0 <= i < 7 && #[trigger] g[i] == 0 && g[i + 1] == 0;
        assert(all_zero(g, i, i + 2));
        assert(all_zero(g, start, start + len));
    } else if len > 1 {
        assert(g[start] == 0 && g[start + 1] == 0);
    }
}

/// A row in state `0A` stands for a listening socket, at the address in its
/// second column and with the inode in its tenth; a row in any other state does
/// not.
pub proof fn a_row_stands_for_its_socket(
    line: Seq<char>,
    addr: Seq<char>,
    hex: Seq<char>,
    host: Seq<char>,
    inode: u64,
)
    requires
        words_of(line).len() >= 10,
        words_of(line)[1] == addr + seq![':'] + hex,
        !addr.contains(':'),
        host_in(addr) == Some(host),
        hex.len() > 0 && number::all_digits(hex, 16) && number::value_of(hex, 16) <= 65535,
        words_of(line)[9] == decimal_of(inode as nat),
    ensures
        words_of(line)[3] == "0A"@ ==> raw_in(line) == Some(
            RawView { inode, addr: host, port: number::value_of(hex, 16) as u16 },
        ),
        words_of(line)[3] != "0A"@ ==> raw_in(line) is None,
{
    text::splits_are_at_the_first_or_last(addr, ':', hex);
    number::decimal_denotes_itself(inode as nat);
    assert(number::digit_of(hex[0], 16) is Some);
}

/// Every listening socket of a table is found, in the table's order, and its
/// first line is a header.
pub proof fn every_listening_socket_is_found(s: Seq<char>, k: int)
    requires
        0 < k < lines_of(s).len(),
        raw_in(lines_of(s)[k]) is Some,
    ensures
        raws_in(table_rows(s)).contains(raw_in(lines_of(s)[k])->0),
{
    lemma_row_found(table_rows(s), k - 1);
}

proof fn lemma_row_found(rows: Seq<Seq<char>>, k: int)
    requires
        0 <= k < rows.len(),
        raw_in(rows[k]) is Some,
    ensures
        raws_in(rows).contains(raw_in(rows[k])->0),
    decreases rows.len(),
{
    let out = raws_in(rows.drop_last());
    let all = raws_in(rows);
    if k == rows.len() - 1 {
        assert(all[all.len() - 1] == raw_in(rows[k])->0);
    } else {
        lemma_row_found(rows.drop_last(), k);
        let i = choose|i: int| 0 <= i < out.len() && out[i] == raw_in(rows[k])->0;
        assert(all[i] == out[i]);
    }
}

/// Nothing is found but what some row behind the header stands for.
pub proof fn only_listening_sockets_are_found(rows: Seq<Seq<char>>, i: int)
    requires
        0 <= i < raws_in(rows).len(),
    ensures
        exists|k: int| 0 <= k < rows.len() && raw_in(#[trigger] rows[k]) == Some(raws_in(rows)[i]),
    decreases rows.len(),
{
    let front = rows.drop_last();
    let out = raws_in(front);
    if i < out.len() {
        only_listening_sockets_are_found(front, i);
        let k = choose|k: int|
            0 <= k < front.len() && raw_in(#[trigger] front[k]) == Some(out[i]);
        assert(raw_in(rows[k]) == Some(raws_in(rows)[i]));
    } else {
        assert(raw_in(rows[rows.len() - 1]) == Some(raws_in(rows)[i]));
    }
}

/// A process state gives the command between its outermost brackets, whatever
/// brackets and blanks that holds, and the parent behind the state letter.
pub proof fn a_state_gives_command_and_parent(
    front: Seq<char>,
    comm: Seq<char>,
    rest: Seq<char>,
    letter: Seq<char>,
    ppid: u32,
    more: Seq<Seq<char>>,
)
    requires
        !front.contains('('),
        !rest.contains(')'),
        words_of(rest) == seq![letter, decimal_of(ppid as nat)] + more,
    ensures
        stat_in(front + seq!['('] + comm + seq![')'] + rest) == Some((ppid, comm)),
{
    let s = front + seq!['('] + comm + seq![')'] + rest;
    let open = front.len() as int;
    let close = front.len() as int + 1 + comm.len() as int;
    assert forall|i: int| 0 <= i < open implies other_than('(')(#[trigger] s[i]) by {
        assert(front.contains(front[i]));
    }
    text::lemma_run_unique(s, other_than('('), open);
    assert forall|i: int| s.len() - rest.len() <= i < s.len() implies other_than(')')(
        #[trigger] s[i],
    ) by {
        assert(rest.contains(rest[i - close - 1]));
    }
    assert(s[close] == ')');
    text::lemma_tail_run_unique(s, other_than(')'), rest.len() as int);
    assert(s.skip(close + 1) =~= rest);
    assert(s.subrange(open + 1, close) =~= comm);
    number::decimal_denotes_itself(ppid as nat);
    assert(words_of(rest)[1] == decimal_of(ppid as nat));
}

/// A file descriptor that is a socket gives its inode, and no other does.
pub proof fn a_socket_gives_its_inode(inode: u64, target: Seq<char>)
    ensures
        inode_in("socket:["@ + decimal_of(inode as nat) + "]"@) == Some(inode),
        !"socket:["@.is_prefix_of(target) ==> inode_in(target) is None,
        !"]"@.is_suffix_of(target) ==> inode_in(target) is None,
{
    let p = "socket:["@;
    let d = decimal_of(inode as nat);
    let s = p + d + "]"@;
    reveal_strlit("socket:[");
    reveal_strlit("]");
    number::decimal_denotes_itself(inode as nat);
    let t = s.skip(p.len() as int);
    assert(t =~= d + "]"@);
    assert(p.is_prefix_of(s));
    assert("]"@.is_suffix_of(t));
    assert(t.take(t.len() - "]"@.len()) =~= d);
    if p.is_prefix_of(target) && "]"@.is_suffix_of(target.skip(p.len() as int)) {
        let u = target.skip(p.len() as int);
        assert("]"@ =~= u.subrange(u.len() - 1, u.len() as int));
        assert(u.subrange(u.len() - 1, u.len() as int)[0] == ']');
        assert(target[target.len() - 1] == ']');
        assert("]"@ =~= target.subrange(target.len() - 1, target.len() as int));
    }
}

/// Arguments end at zero bytes, and empty ones do not count.
pub proof fn arguments_end_at_zeros(arg: Seq<u8>, rest: Seq<u8>)
    requires
        forall|i: int| 0 <= i < arg.len() ==> #[trigger] arg[i] != 0,
    ensures
        arg.len() > 0 ==> args_of(arg + seq![0u8] + rest) == seq![arg] + args_of(rest),
        arg.len() > 0 ==> args_of(arg) == seq![arg],
        args_of(seq![0u8] + rest) == args_of(rest),
        args_of(Seq::<u8>::empty()).len() == 0,
{
    let zero = seq![0u8] + rest;
    assert(zero.drop_first() =~= rest);
    assert(args_of(zero) == args_of(rest));
    assert(args_of(Seq::<u8>::empty()) =~= seq![]);
    if arg.len() > 0 {
        let s = arg + seq![0u8] + rest;
        assert forall|i: int| 0 <= i < arg.len() implies #[trigger] s[i] != 0 by {
            assert(arg[i] != 0);
        }
        lemma_arg_len(s, arg.len() as int);
        assert(s[0] != 0);
        assert(s.take(arg.len() as int) =~= arg);
        assert(s.skip(arg.len() as int) =~= zero);
        lemma_arg_len(arg, arg.len() as int);
        assert(arg[0] != 0);
        assert(arg.take(arg.len() as int) =~= arg);
        assert(arg.skip(arg.len() as int) =~= Seq::<u8>::empty());
        assert(seq![arg] + Seq::<Seq<u8>>::empty() =~= seq![arg]);
    }
}

proof fn lemma_link_listed(links: Seq<Seq<char>>, raw: Seq<RawView>, p: EntryProcess, k: int)
    requires
        0 <= k < links.len(),
        link_listener(links[k], raw, p) is Some,
    ensures
        links_listeners(links, raw, p).contains(link_listener(links[k], raw, p)->0),
    decreases links.len(),
{
    let out = links_listeners(links.drop_last(), raw, p);
    let all = links_listeners(links, raw, p);
    let l = link_listener(links[k], raw, p)->0;
    if k == links.len() - 1 {
        assert(all[all.len() - 1] == l);
    } else {
        lemma_link_listed(links.drop_last(), raw, p, k);
        let i = choose|i: int| 0 <= i < out.len() && out[i] == l;
        assert(all[i] == l);
    }
}

proof fn lemma_entry_listed(es: Seq<EntryView>, raw: Seq<RawView>, e: int, l: ListenerView)
    requires
        0 <= e < es.len(),
        entry_listeners(es[e], raw).contains(l),
    ensures
        all_listeners(es, raw).contains(l),
    decreases es.len(),
{
    let front = all_listeners(es.drop_last(), raw);
    let back = entry_listeners(es.last(), raw);
    let all = all_listeners(es, raw);
    if e == es.len() - 1 {
        let i = choose|i: int| 0 <= i < back.len() && back[i] == l;
        assert(all[front.len() + i] == l);
    } else {
        lemma_entry_listed(es.drop_last(), raw, e, l);
        let i = choose|i: int| 0 <= i < front.len() && front[i] == l;
        assert(all[i] == l);
    }
}

/// Every process that holds a listening socket is listed with it: under its own
/// id and name, at the socket's address and port.
pub proof fn every_holder_of_a_socket_is_listed(
    es: Seq<EntryView>,
    raw: Seq<RawView>,
    e: int,
    p: EntryProcess,
    f: int,
    k: int,
)
    requires
        0 <= e < es.len(),
        process_of(es[e]) == Some(p),
        0 <= f < es[e].links.len(),
        0 <= k < raw.len(),
        es[e].links[f] == "socket:["@ + decimal_of(raw[k].inode as nat) + "]"@,
        forall|j: int| k < j < raw.len() ==> (#[trigger] raw[j]).inode != raw[k].inode,
    ensures
        assembled(es, raw).listeners.contains(
            ListenerView {
                pid: p.pid,
                port: raw[k].port,
                addr: raw[k].addr,
                process_name: p.name,
            },
        ),
{
    let l = ListenerView {
        pid: p.pid,
        port: raw[k].port,
        addr: raw[k].addr,
        process_name: p.name,
    };
    let inode = raw[k].inode;
    a_socket_gives_its_inode(inode, es[e].links[f]);
    assert forall|j: int| k < j < raw.len() implies !is_inode(inode)(#[trigger] raw[j]) by {}
    seqs::lemma_last_where_unique(raw, is_inode(inode), k);
    lemma_link_listed(es[e].links, raw, p, f);
    lemma_entry_listed(es, raw, e, l);
    order::sorting_keeps_the_elements(all_listeners(es, raw), by_pid_and_port());
    repeats_are_dropped(sorted(all_listeners(es, raw), by_pid_and_port()));
}

proof fn lemma_links_only(links: Seq<Seq<char>>, raw: Seq<RawView>, p: EntryProcess, i: int)
    requires
        0 <= i < links_listeners(links, raw, p).len(),
    ensures
        exists|f: int|
            0 <= f < links.len() && link_listener(#[trigger] links[f], raw, p) == Some(
                links_listeners(links, raw, p)[i],
            ),
    decreases links.len(),
{
    let front = links.drop_last();
    let out = links_listeners(front, raw, p);
    let all = links_listeners(links, raw, p);
    if i < out.len() {
        lemma_links_only(front, raw, p, i);
        let f = choose|f: int|
            0 <= f < front.len() && link_listener(#[trigger] front[f], raw, p) == Some(out[i]);
        assert(link_listener(links[f], raw, p) == Some(all[i]));
    } else {
        assert(link_listener(links[links.len() - 1], raw, p) == Some(all[i]));
    }
}

/// Some process holds the socket `l` listens on.
pub open spec fn is_held(es: Seq<EntryView>, raw: Seq<RawView>, l: ListenerView, e: int) -> bool {
    &&& 0 <= e < es.len()
    &&& process_of(es[e]) is Some
    &&& process_of(es[e])->0.pid == l.pid
    &&& process_of(es[e])->0.name == l.process_name
    &&& exists|f: int, k: int|
        0 <= f < es[e].links.len() && 0 <= k < raw.len() && inode_in(#[trigger] es[e].links[f])
            == Some((#[trigger] raw[k]).inode) && raw[k].addr == l.addr && raw[k].port == l.port
}

proof fn lemma_all_held(es: Seq<EntryView>, raw: Seq<RawView>, i: int)
    requires
        0 <= i < all_listeners(es, raw).len(),
    ensures
        exists|e: int| #[trigger] is_held(es, raw, all_listeners(es, raw)[i], e),
    decreases es.len(),
{
    let front = es.drop_last();
    let out = all_listeners(front, raw);
    let all = all_listeners(es, raw);
    let l = all[i];
    if i < out.len() {
        lemma_all_held(front, raw, i);
        let e = choose|e: int| #[trigger] is_held(front, raw, out[i], e);
        assert(front[e] == es[e]);
        assert(is_held(es, raw, l, e));
    } else {
        let e = es.len() - 1;
        let p = process_of(es[e])->0;
        lemma_links_only(es[e].links, raw, p, i - out.len());
        let f = choose|f: int|
            0 <= f < es[e].links.len() && link_listener(#[trigger] es[e].links[f], raw, p) == Some(
                l,
            );
        let inode = inode_in(es[e].links[f])->0;
        seqs::lemma_last_where(raw, is_inode(inode));
        let k = last_where(raw, is_inode(inode));
        assert(is_inode(inode)(raw[k]));
        assert(inode_in(es[e].links[f]) == Some(raw[k].inode));
        assert(is_held(es, raw, l, e));
    }
}

/// Nothing is listed but sockets that some process holds, and the list goes by
/// process and port.
pub proof fn only_holders_of_sockets_are_listed(es: Seq<EntryView>, raw: Seq<RawView>, i: int)
    requires
        0 <= i < assembled(es, raw).listeners.len(),
    ensures
        exists|e: int| #[trigger] is_held(es, raw, assembled(es, raw).listeners[i], e),
{
    let all = all_listeners(es, raw);
    order::sorting_keeps_the_elements(all, by_pid_and_port());
    repeats_are_dropped(sorted(all, by_pid_and_port()));
    let l = assembled(es, raw).listeners[i];
    assert(assembled(es, raw).listeners.contains(l));
    assert(sorted(all, by_pid_and_port()).contains(l));
    assert(all.contains(l));
    let j = choose|j: int| 0 <= j < all.len() && all[j] == l;
    lemma_all_held(es, raw, j);
}

proof fn lemma_no_repeats_in_order(s: Seq<ListenerView>)
    requires
        order::in_order(s, by_pid_and_port()),
    ensures
        order::in_order(without_repeats(s), by_pid_and_port()),
        forall|x: ListenerView| #[trigger] without_repeats(s).contains(x) <==> s.contains(x),
    decreases s.len(),
{
    repeats_are_dropped(s);
    if s.len() > 0 {
        let t = s.drop_last();
        let out = without_repeats(t);
        let all = without_repeats(s);
        lemma_no_repeats_in_order(t);
        assert forall|i: int, j: int| 0 <= i < j < all.len() implies by_pid_and_port()(
            #[trigger] all[i],
            #[trigger] all[j],
        ) by {
            assert(all[i] == out[i]);
            if j < out.len() {
                assert(all[j] == out[j]);
            } else {
                assert(out.contains(out[i]));
                let k = choose|k: int| 0 <= k < t.len() && t[k] == out[i];
                assert(s[k] == out[i]);
                assert(by_pid_and_port()(s[k], s[s.len() - 1]));
            }
        }
    }
}

/// The list goes by process, and by port within one.
pub proof fn listeners_go_by_process_and_port(es: Seq<EntryView>, raw: Seq<RawView>, i: int, j: int)
    requires
        0 <= i < j < assembled(es, raw).listeners.len(),
    ensures
        ({
            let a = assembled(es, raw).listeners[i];
            let b = assembled(es, raw).listeners[j];
            a.pid < b.pid || (a.pid == b.pid && a.port <= b.port)
        }),
{
    let s = sorted(all_listeners(es, raw), by_pid_and_port());
    order::sorting_gives_an_order(all_listeners(es, raw), by_pid_and_port());
    lemma_no_repeats_in_order(s);
    assert(by_pid_and_port()(assembled(es, raw).listeners[i], assembled(es, raw).listeners[j]));
}

/// Every process is in the table, with its parent and its command line; one that
/// listens is there with its directory too.
pub proof fn every_process_is_in_the_table(
    es: Seq<EntryView>,
    raw: Seq<RawView>,
    e: int,
    p: EntryProcess,
)
    requires
        0 <= e < es.len(),
        process_of(es[e]) == Some(p),
        forall|j: int|
            e < j < es.len() ==> !((#[trigger] process_of(es[j])) matches Some(q) && q.pid
                == p.pid),
    ensures
        assembled(es, raw).processes.contains_key(p.pid),
        assembled(es, raw).processes[p.pid] == p.info,
        entry_listeners(es[e], raw).len() > 0 && es[e].cwd is Some ==> assembled(
            es,
            raw,
        ).cwds.contains_key(p.pid) && assembled(es, raw).cwds[p.pid] == es[e].cwd->0,
    decreases es.len(),
{
    if e < es.len() - 1 {
        let front = es.drop_last();
        assert forall|j: int| e < j < front.len() implies !((#[trigger] process_of(front[j]))
            matches Some(q) && q.pid == p.pid) by {
            assert(front[j] == es[j]);
            assert(!(process_of(es[j]) matches Some(q) && q.pid == p.pid));
        }
        every_process_is_in_the_table(front, raw, e, p);
        assert(!(process_of(es[es.len() - 1]) matches Some(q) && q.pid == p.pid));
    }
}

/// An entry is a process where its name is a number and its state can be read;
/// its command line is that of its arguments.
pub proof fn an_entry_is_its_process(e: EntryView, pid: u32, ppid: u32, name: Seq<char>)
    requires
        e.name == decimal_of(pid as nat),
        e.stat is Some,
        stat_in(e.stat->0) == Some((ppid, name)),
    ensures
        process_of(e) is Some,
        process_of(e)->0.pid == pid,
        process_of(e)->0.name == name,
        process_of(e)->0.info.ppid == ppid,
        e.cmdline is Some ==> process_of(e)->0.info.command == command_of(e.cmdline->0),
{
    number::decimal_denotes_itself(pid as nat);
}

} // verus!
