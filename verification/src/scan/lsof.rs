//! Reading the field output of `lsof`.

use std::collections::HashMap;

use vstd::prelude::*;

use super::{host_port_of, listeners_view, paths_view, split_host_port, Listener, ListenerView};
use crate::number;
use crate::number::{decimal_of, pid_of};
use crate::text;
use crate::text::{joined, lines_of, texts, utf8_lossy};

verus! {

/// `line` is a record of this kind.
pub open spec fn has_tag(line: Seq<char>, tag: char) -> bool {
    line.len() > 0 && line[0] == tag
}

/// The process that a record behind these lines belongs to: what the last `p`
/// record says.
pub open spec fn current_pid(lines: Seq<Seq<char>>) -> Option<u32>
    decreases lines.len(),
{
    if lines.len() == 0 {
        None
    } else if has_tag(lines.last(), 'p') {
        pid_of(lines.last().skip(1))
    } else {
        current_pid(lines.drop_last())
    }
}

/// The command of that process: what the last `c` record since its `p` record
/// says.
pub open spec fn current_name(lines: Seq<Seq<char>>) -> Seq<char>
    decreases lines.len(),
{
    if lines.len() == 0 || has_tag(lines.last(), 'p') {
        seq![]
    } else if has_tag(lines.last(), 'c') {
        lines.last().skip(1)
    } else {
        current_name(lines.drop_last())
    }
}

/// The listener that an `n` record behind these lines stands for.
pub open spec fn listener_at(lines: Seq<Seq<char>>, line: Seq<char>) -> Option<ListenerView> {
    if !has_tag(line, 'n') {
        None
    } else {
        match (current_pid(lines), host_port_of(line.skip(1))) {
            (Some(pid), Some((addr, port))) => Some(
                ListenerView { pid, port, addr, process_name: current_name(lines) },
            ),
            _ => None,
        }
    }
}

/// `l` is listed already: the same process, port and address.
pub open spec fn is_listed(out: Seq<ListenerView>, l: ListenerView) -> bool {
    exists|i: int|
        0 <= i < out.len() && (#[trigger] out[i]).pid == l.pid && out[i].port == l.port
            && out[i].addr == l.addr
}

/// The listeners of an `lsof -F pcn` output, each process, port and address
/// once.
pub open spec fn listeners_of(lines: Seq<Seq<char>>) -> Seq<ListenerView>
    decreases lines.len(),
{
    if lines.len() == 0 {
        seq![]
    } else {
        let out = listeners_of(lines.drop_last());
        match listener_at(lines.drop_last(), lines.last()) {
            Some(l) => if is_listed(out, l) {
                out
            } else {
                out.push(l)
            },
            None => out,
        }
    }
}

/// The working directories of an `lsof -d cwd -Fn` output.
pub open spec fn cwds_of(lines: Seq<Seq<char>>) -> Map<u32, Seq<char>>
    decreases lines.len(),
{
    if lines.len() == 0 {
        Map::empty()
    } else {
        let out = cwds_of(lines.drop_last());
        match current_pid(lines.drop_last()) {
            Some(pid) => if has_tag(lines.last(), 'n') {
                out.insert(pid, lines.last().skip(1))
            } else {
                out
            },
            None => out,
        }
    }
}

/// Splits a record into its tag and its value.
fn record(line: &str) -> (r: Option<(char, String)>)
    ensures
        r is Some <==> line@.len() > 0,
        r matches Some((tag, value)) ==> tag == line@[0] && value@ == line@.skip(1),
{
    let v = text::chars_of(line);
    if v.len() == 0 {
        None
    } else {
        let value = text::piece(&v, 1, v.len());
        assert(value@ =~= line@.skip(1));
        Some((v[0], value))
    }
}

fn listed(out: &Vec<Listener>, pid: u32, port: u16, addr: &str) -> (r: bool)
    ensures
        r == exists|i: int|
            0 <= i < out@.len() && (#[trigger] listeners_view(out@)[i]).pid == pid
                && listeners_view(out@)[i].port == port && listeners_view(out@)[i].addr == addr@,
{
    let mut i: usize = 0;
    while i < out.len()
        invariant
            i <= out@.len(),
            forall|j: int|
                0 <= j < i ==> !((#[trigger] listeners_view(out@)[j]).pid == pid && listeners_view(
                    out@,
                )[j].port == port && listeners_view(out@)[j].addr == addr@),
        decreases out.len() - i,
    {
        assert(listeners_view(out@)[i as int] == out@[i as int]@);
        if out[i].pid == pid && out[i].port == port && text::same(out[i].addr.as_str(), addr) {
            return true;
        }
        i = i + 1;
    }
    false
}

/// Reads `lsof -F pcn` output. A process header (`p`, then `c`) is followed by
/// its files, and each `n` record under it is a listener; several files on one
/// socket count once.
pub fn parse_listeners(s: &str) -> (r: Vec<Listener>)
    ensures
        listeners_view(r@) == listeners_of(lines_of(s@)),
{
    let lines = text::lines(s);
    let ghost all = texts(lines@);
    let mut out: Vec<Listener> = Vec::new();
    let mut pid: Option<u32> = None;
    let mut name: String = String::new();
    let mut i: usize = 0;
    assert(listeners_view(out@) =~= seq![]);
    while i < lines.len()
        invariant
            i <= lines@.len(),
            all == texts(lines@),
            pid == current_pid(all.take(i as int)),
            name@ == current_name(all.take(i as int)),
            listeners_view(out@) == listeners_of(all.take(i as int)),
        decreases lines.len() - i,
    {
        let ghost line = all[i as int];
        proof {
            assert(all.take(i + 1).drop_last() =~= all.take(i as int));
            assert(all.take(i + 1).last() == line);
        }
        if let Some((tag, value)) = record(lines[i].as_str()) {
            if tag == 'p' {
                pid = number::parse_pid(value.as_str());
                name = String::new();
            } else if tag == 'c' {
                name = value;
            } else if tag == 'n' {
                if let Some(p) = pid {
                    if let Some((addr, port)) = split_host_port(value.as_str()) {
                        let ghost before = listeners_view(out@);
                        if !listed(&out, p, port, addr.as_str()) {
                            out.push(Listener { pid: p, port, addr, process_name: name.clone() });
                            assert(listeners_view(out@) =~= before.push(
                                listener_at(all.take(i as int), line)->0,
                            ));
                        }
                    }
                }
            }
        }
        i = i + 1;
    }
    assert(all.take(i as int) =~= all);
    out
}

/// Reads `lsof -d cwd -Fn` output: a `p` record, then the path in an `n`
/// record.
pub fn parse_cwds(s: &str) -> (r: HashMap<u32, String>)
    ensures
        paths_view(r@) == cwds_of(lines_of(s@)),
{
    broadcast use vstd::std_specs::hash::group_hash_axioms;

    let lines = text::lines(s);
    let ghost all = texts(lines@);
    let mut out: HashMap<u32, String> = HashMap::new();
    let mut pid: Option<u32> = None;
    let mut i: usize = 0;
    assert(paths_view(out@) =~= Map::empty());
    while i < lines.len()
        invariant
            i <= lines@.len(),
            all == texts(lines@),
            pid == current_pid(all.take(i as int)),
            paths_view(out@) == cwds_of(all.take(i as int)),
        decreases lines.len() - i,
    {
        proof {
            assert(all.take(i + 1).drop_last() =~= all.take(i as int));
            assert(all.take(i + 1).last() == all[i as int]);
        }
        let ghost before = out@;
        if let Some((tag, value)) = record(lines[i].as_str()) {
            if tag == 'p' {
                pid = number::parse_pid(value.as_str());
            } else if tag == 'n' {
                if let Some(p) = pid {
                    let ghost path = value@;
                    out.insert(p, value);
                    assert(paths_view(out@) =~= paths_view(before).insert(p, path));
                }
            }
        }
        i = i + 1;
    }
    assert(all.take(i as int) =~= all);
    out
}

/// The arguments of `lsof` that list the listening sockets.
pub fn listener_args() -> (r: Vec<String>)
    ensures
        texts(r@) == seq!["-nP"@, "-iTCP"@, "-sTCP:LISTEN"@, "-F"@, "pcn"@],
{
    let r: Vec<String> = vec![
        "-nP".to_owned(),
        "-iTCP".to_owned(),
        "-sTCP:LISTEN".to_owned(),
        "-F".to_owned(),
        "pcn".to_owned(),
    ];
    assert(texts(r@) =~= seq!["-nP"@, "-iTCP"@, "-sTCP:LISTEN"@, "-F"@, "pcn"@]);
    r
}

/// The process ids in decimal.
pub open spec fn decimals(pids: Seq<u32>) -> Seq<Seq<char>> {
    pids.map_values(|p: u32| decimal_of(p as nat))
}

/// The arguments of `lsof` that list the working directories of these
/// processes.
pub fn cwd_args(pids: &Vec<u32>) -> (r: Vec<String>)
    ensures
        texts(r@) == seq![
            "-a"@,
            "-p"@,
            joined(decimals(pids@), ","@),
            "-d"@,
            "cwd"@,
            "-Fn"@,
        ],
{
    let mut names: Vec<String> = Vec::new();
    let mut i: usize = 0;
    while i < pids.len()
        invariant
            i <= pids@.len(),
            texts(names@) == decimals(pids@).take(i as int),
        decreases pids.len() - i,
    {
        let ghost before = texts(names@);
        names.push(number::decimal(pids[i] as u64));
        assert(texts(names@) =~= before.push(decimals(pids@)[i as int]));
        assert(texts(names@) =~= decimals(pids@).take(i + 1));
        i = i + 1;
    }
    assert(decimals(pids@).take(i as int) =~= decimals(pids@));
    let list = text::join(&names, ",");
    let ghost l = list@;
    let r: Vec<String> = vec![
        "-a".to_owned(),
        "-p".to_owned(),
        list,
        "-d".to_owned(),
        "cwd".to_owned(),
        "-Fn".to_owned(),
    ];
    assert(texts(r@) =~= seq!["-a"@, "-p"@, l, "-d"@, "cwd"@, "-Fn"@]);
    r
}

/// `pids` holds every listening process once, in the order of their first
/// listeners.
pub open spec fn pids_of(listeners: Seq<ListenerView>) -> Seq<u32>
    decreases listeners.len(),
{
    if listeners.len() == 0 {
        seq![]
    } else {
        let out = pids_of(listeners.drop_last());
        if out.contains(listeners.last().pid) {
            out
        } else {
            out.push(listeners.last().pid)
        }
    }
}

/// The listening processes, each once.
pub fn listening_pids(listeners: &Vec<Listener>) -> (r: Vec<u32>)
    ensures
        r@ == pids_of(listeners_view(listeners@)),
{
    let ghost all = listeners_view(listeners@);
    let mut out: Vec<u32> = Vec::new();
    let mut i: usize = 0;
    while i < listeners.len()
        invariant
            i <= listeners@.len(),
            all == listeners_view(listeners@),
            out@ == pids_of(all.take(i as int)),
        decreases listeners.len() - i,
    {
        proof {
            assert(all.take(i + 1).drop_last() =~= all.take(i as int));
            assert(all.take(i + 1).last() == all[i as int]);
        }
        let pid: u32 = listeners[i].pid;
        let mut j: usize = 0;
        while j < out.len() && out[j] != pid
            invariant
                j <= out@.len(),
                forall|k: int| 0 <= k < j ==> #[trigger] out@[k] != pid,
            decreases out.len() - j,
        {
            j = j + 1;
        }
        if j >= out.len() {
            assert(!out@.contains(pid));
            out.push(pid);
        } else {
            assert(out@[j as int] == pid);
        }
        i = i + 1;
    }
    assert(all.take(i as int) =~= all);
    out
}

/// The listeners in what `lsof` wrote.
pub fn listeners_in(stdout: &[u8]) -> (r: Vec<Listener>)
    ensures
        listeners_view(r@) == listeners_of(lines_of(utf8_lossy(stdout@))),
{
    parse_listeners(text::from_utf8_lossy(stdout).as_str())
}

/// The working directories in what `lsof` wrote.
pub fn cwds_in(stdout: &[u8]) -> (r: HashMap<u32, String>)
    ensures
        paths_view(r@) == cwds_of(lines_of(utf8_lossy(stdout@))),
{
    parse_cwds(text::from_utf8_lossy(stdout).as_str())
}

/// The same process, port and address are listed once.
pub proof fn listeners_are_listed_once(lines: Seq<Seq<char>>)
    ensures
        forall|i: int, j: int|
            0 <= i < j < listeners_of(lines).len() ==> !((#[trigger] listeners_of(lines)[i]).pid == (
            #[trigger] listeners_of(lines)[j]).pid && listeners_of(lines)[i].port == listeners_of(
                lines,
            )[j].port && listeners_of(lines)[i].addr == listeners_of(lines)[j].addr),
    decreases lines.len(),
{
    if lines.len() > 0 {
        let out = listeners_of(lines.drop_last());
        let all = listeners_of(lines);
        listeners_are_listed_once(lines.drop_last());
        assert forall|i: int, j: int| 0 <= i < j < all.len() implies !((#[trigger] all[i]).pid == (
        #[trigger] all[j]).pid && all[i].port == all[j].port && all[i].addr == all[j].addr) by {
            assert(all[i] == out[i]);
            if j < out.len() {
                assert(all[j] == out[j]);
            } else {
                assert(!is_listed(out, all[j]));
            }
        }
    }
}

proof fn lemma_listed_from(lines: Seq<Seq<char>>, k: int)
    requires
        0 <= k < lines.len(),
        listener_at(lines.take(k), lines[k]) is Some,
    ensures
        is_listed(listeners_of(lines), listener_at(lines.take(k), lines[k])->0),
    decreases lines.len(),
{
    let l = listener_at(lines.take(k), lines[k])->0;
    let front = lines.drop_last();
    let out = listeners_of(front);
    let all = listeners_of(lines);
    if k == lines.len() - 1 {
        assert(lines.take(k) =~= front);
        if !is_listed(out, l) {
            assert(all[all.len() - 1] == l);
        }
    } else {
        assert(front.take(k) =~= lines.take(k));
        lemma_listed_from(front, k);
        let i = choose|i: int|
            0 <= i < out.len() && (#[trigger] out[i]).pid == l.pid && out[i].port == l.port
                && out[i].addr == l.addr;
        assert(all[i] == out[i]);
    }
}

/// Behind a process header, what came before it is of no account.
proof fn lemma_header_starts_anew(before: Seq<Seq<char>>, lines: Seq<Seq<char>>)
    requires
        lines.len() > 0,
        has_tag(lines[0], 'p'),
    ensures
        current_pid(before + lines) == current_pid(lines),
        current_name(before + lines) == current_name(lines),
    decreases lines.len(),
{
    let all = before + lines;
    assert(all.last() == lines.last());
    assert(all.drop_last() =~= before + lines.drop_last());
    if !has_tag(lines.last(), 'p') {
        assert(lines.drop_last()[0] == lines[0]);
        lemma_header_starts_anew(before, lines.drop_last());
    }
}

/// Records that were read before list nothing new, as long as they start with a
/// process header.
proof fn lemma_again(lines: Seq<Seq<char>>, k: int)
    requires
        0 <= k <= lines.len(),
        lines.len() > 0 ==> has_tag(lines[0], 'p'),
    ensures
        listeners_of(lines + lines.take(k)) == listeners_of(lines),
    decreases k,
{
    if k == 0 {
        assert(lines + lines.take(0) =~= lines);
    } else {
        let head = lines.take(k - 1);
        let all = lines + lines.take(k);
        let line = lines[k - 1];
        assert(all.drop_last() =~= lines + head);
        assert(all.last() == line);
        lemma_again(lines, k - 1);
        if k > 1 {
            assert(head[0] == lines[0]);
            lemma_header_starts_anew(lines, head);
            assert(listener_at(lines + head, line) == listener_at(head, line));
            if listener_at(head, line) is Some {
                lemma_listed_from(lines, k - 1);
            }
        }
    }
}

/// Duplicates collapse: an output given twice over lists what it lists once.
pub proof fn an_output_twice_over_lists_nothing_new(s: Seq<char>)
    requires
        has_tag(s, 'p'),
        s.last() == '\n',
    ensures
        listeners_of(lines_of(s + s)) == listeners_of(lines_of(s)),
{
    let lines = lines_of(s);
    text::lemma_lines_add(s, s);
    text::lemma_run(s, text::other_than('\n'));
    let i = text::run(s, text::other_than('\n')) as int;
    if i == s.len() {
        assert(text::other_than('\n')(s[s.len() - 1]));
    }
    assert(i > 0) by {
        if i == 0 {
            assert(!text::other_than('\n')(s[0]));
        }
    }
    assert(lines[0] == text::strip_cr(s.take(i)));
    assert(has_tag(lines[0], 'p'));
    lemma_again(lines, lines.len() as int);
    assert(lines.take(lines.len() as int) =~= lines);
}

proof fn lemma_since_header(lines: Seq<Seq<char>>, h: int, k: int)
    requires
        0 <= h < k <= lines.len(),
        has_tag(lines[h], 'p'),
        forall|j: int| h < j < k ==> !has_tag(#[trigger] lines[j], 'p'),
    ensures
        current_pid(lines.take(k)) == pid_of(lines[h].skip(1)),
    decreases k,
{
    let part = lines.take(k);
    assert(part.last() == lines[k - 1]);
    assert(part.drop_last() =~= lines.take(k - 1));
    if h < k - 1 {
        assert(!has_tag(lines[k - 1], 'p'));
        lemma_since_header(lines, h, k - 1);
    }
}

proof fn lemma_since_name(lines: Seq<Seq<char>>, c: int, k: int)
    requires
        0 <= c < k <= lines.len(),
        has_tag(lines[c], 'c'),
        forall|j: int|
            c < j < k ==> !has_tag(#[trigger] lines[j], 'p') && !has_tag(lines[j], 'c'),
    ensures
        current_name(lines.take(k)) == lines[c].skip(1),
    decreases k,
{
    let part = lines.take(k);
    assert(part.last() == lines[k - 1]);
    assert(part.drop_last() =~= lines.take(k - 1));
    if c < k - 1 {
        assert(!has_tag(lines[k - 1], 'p') && !has_tag(lines[k - 1], 'c'));
        lemma_since_name(lines, c, k - 1);
    }
}

/// An address belongs to the process whose header stands last before it, under
/// the name that stands last between the two.
pub proof fn an_address_belongs_to_the_process_above_it(
    lines: Seq<Seq<char>>,
    h: int,
    c: int,
    k: int,
    pid: u32,
    name: Seq<char>,
    addr: Seq<char>,
    port: u16,
)
    requires
        0 <= h < c < k < lines.len(),
        lines[h] == seq!['p'] + decimal_of(pid as nat),
        lines[c] == seq!['c'] + name,
        lines[k] == seq!['n'] + (addr + seq![':'] + decimal_of(port as nat)),
        forall|j: int|
            h < j < k && (#[trigger] lines[j]).len() > 0 ==> lines[j][0] != 'p' && (j > c
                ==> lines[j][0] != 'c'),
    ensures
        listener_at(lines.take(k), lines[k]) == Some(
            ListenerView { pid, port, addr, process_name: name },
        ),
        exists|i: int|
            0 <= i < listeners_of(lines).len() && (#[trigger] listeners_of(lines)[i]).pid == pid
                && listeners_of(lines)[i].port == port && listeners_of(lines)[i].addr == addr,
{
    let at = addr + seq![':'] + decimal_of(port as nat);
    number::decimal_denotes_itself(pid as nat);
    assert(lines[h].skip(1) =~= decimal_of(pid as nat));
    assert(lines[c].skip(1) =~= name);
    assert(lines[k].skip(1) =~= at);
    super::a_bound_address_can_be_split(addr, port);
    assert forall|j: int| h < j < k implies !has_tag(#[trigger] lines[j], 'p') by {}
    lemma_since_header(lines, h, k);
    assert forall|j: int| c < j < k implies !has_tag(#[trigger] lines[j], 'p') && !has_tag(
        lines[j],
        'c',
    ) by {}
    lemma_since_name(lines, c, k);
    lemma_listed_from(lines, k);
    let l = listener_at(lines.take(k), lines[k])->0;
    assert(is_listed(listeners_of(lines), l));
}

/// Whatever is listed, some record stands for.
pub proof fn only_bound_addresses_are_listed(lines: Seq<Seq<char>>, i: int)
    requires
        0 <= i < listeners_of(lines).len(),
    ensures
        exists|k: int|
            0 <= k < lines.len() && listener_at(lines.take(k), #[trigger] lines[k]) == Some(
                listeners_of(lines)[i],
            ),
    decreases lines.len(),
{
    let front = lines.drop_last();
    let out = listeners_of(front);
    let last = lines.len() - 1;
    if i < out.len() {
        only_bound_addresses_are_listed(front, i);
        let k = choose|k: int|
            0 <= k < front.len() && listener_at(front.take(k), #[trigger] front[k]) == Some(out[i]);
        assert(front.take(k) =~= lines.take(k));
        assert(listener_at(lines.take(k), lines[k]) == Some(listeners_of(lines)[i]));
    } else {
        assert(lines.take(last) =~= front);
        assert(listener_at(lines.take(last), lines[last]) == Some(listeners_of(lines)[i]));
    }
}

/// The directory of a process is the last that stands under its header.
pub proof fn a_directory_belongs_to_the_process_above_it(
    lines: Seq<Seq<char>>,
    h: int,
    pid: u32,
    dir: Seq<char>,
)
    requires
        0 <= h < lines.len() - 1,
        lines[h] == seq!['p'] + decimal_of(pid as nat),
        lines.last() == seq!['n'] + dir,
        forall|j: int|
            h < j < lines.len() && (#[trigger] lines[j]).len() > 0 ==> lines[j][0] != 'p',
    ensures
        cwds_of(lines).contains_key(pid),
        cwds_of(lines)[pid] == dir,
        forall|other: u32|
            other != pid ==> (#[trigger] cwds_of(lines).contains_key(other) <==> cwds_of(
                lines.drop_last(),
            ).contains_key(other)) && (cwds_of(lines).contains_key(other) ==> cwds_of(lines)[other]
                == cwds_of(lines.drop_last())[other]),
{
    number::decimal_denotes_itself(pid as nat);
    assert(lines[h].skip(1) =~= decimal_of(pid as nat));
    assert(lines.last().skip(1) =~= dir);
    let k = lines.len() - 1;
    assert forall|j: int| h < j < k implies !has_tag(#[trigger] lines[j], 'p') by {}
    lemma_since_header(lines, h, k);
    assert(lines.take(k) =~= lines.drop_last());
}

/// Records behind a directory change it only where they name another one.
pub proof fn a_directory_is_kept(lines: Seq<Seq<char>>, line: Seq<char>)
    requires
        line.len() == 0 || line[0] != 'n',
    ensures
        cwds_of(lines.push(line)) == cwds_of(lines),
        listeners_of(lines.push(line)) == listeners_of(lines),
{
    assert(lines.push(line).drop_last() =~= lines);
}

} // verus!
