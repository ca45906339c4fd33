//! Reading the process table that `ps` prints.

use std::collections::HashMap;

use vstd::prelude::*;

use super::{processes_view, ProcessInfo, ProcessView};
use crate::number;
use crate::number::{decimal_of, pid_of};
use crate::text;
use crate::text::{joined, lines_of, texts, words_of};

verus! {

/// The process that a row `pid ppid command…` tells of.
pub open spec fn process_in(line: Seq<char>) -> Option<(u32, ProcessView)> {
    let w = words_of(line);
    if w.len() < 2 {
        None
    } else {
        match (pid_of(w[0]), pid_of(w[1])) {
            (Some(pid), Some(ppid)) => Some(
                (pid, ProcessView { ppid, command: joined(w.skip(2), seq![' ']) }),
            ),
            _ => None,
        }
    }
}

/// The process table of these rows; a later row of a process replaces an
/// earlier one.
pub open spec fn table_of(lines: Seq<Seq<char>>) -> Map<u32, ProcessView>
    decreases lines.len(),
{
    if lines.len() == 0 {
        Map::empty()
    } else {
        match process_in(lines.last()) {
            Some((pid, p)) => table_of(lines.drop_last()).insert(pid, p),
            None => table_of(lines.drop_last()),
        }
    }
}

fn process(line: &str) -> (r: Option<(u32, ProcessInfo)>)
    ensures
        r is Some <==> process_in(line@) is Some,
        r matches Some((pid, p)) ==> process_in(line@) == Some((pid, p@)),
{
    let mut w = text::words(line);
    let ghost all = texts(w@);
    if w.len() < 2 {
        return None;
    }
    assert(all[0] == w@[0]@ && all[1] == w@[1]@);
    match (number::parse_pid(w[0].as_str()), number::parse_pid(w[1].as_str())) {
        (Some(pid), Some(ppid)) => {
            let _ = w.remove(0);
            let _ = w.remove(0);
            proof {
                assert(texts(w@) =~= all.skip(2));
                reveal_strlit(" ");
                assert(" "@ =~= seq![' ']);
            }
            let command = text::join(&w, " ");
            Some((pid, ProcessInfo { ppid, command }))
        },
        _ => None,
    }
}

/// Reads `ps -axo pid=,ppid=,command=` output; rows of any other form are
/// skipped.
pub fn parse_ps(s: &str) -> (r: HashMap<u32, ProcessInfo>)
    ensures
        processes_view(r@) == table_of(lines_of(s@)),
{
    broadcast use vstd::std_specs::hash::group_hash_axioms;

    let lines = text::lines(s);
    let ghost all = texts(lines@);
    let mut out: HashMap<u32, ProcessInfo> = HashMap::new();
    let mut i: usize = 0;
    assert(processes_view(out@) =~= Map::empty());
    while i < lines.len()
        invariant
            i <= lines@.len(),
            all == texts(lines@),
            processes_view(out@) == table_of(all.take(i as int)),
        decreases lines.len() - i,
    {
        proof {
            assert(all.take(i + 1).drop_last() =~= all.take(i as int));
            assert(all.take(i + 1).last() == all[i as int]);
        }
        let ghost before = out@;
        if let Some((pid, p)) = process(lines[i].as_str()) {
            let ghost v = p@;
            out.insert(pid, p);
            assert(processes_view(out@) =~= processes_view(before).insert(pid, v));
        }
        i = i + 1;
    }
    assert(all.take(i as int) =~= all);
    out
}

/// The arguments of `ps` that print the process table.
pub fn table_args() -> (r: Vec<String>)
    ensures
        texts(r@) == seq!["-axo"@, "pid=,ppid=,command="@],
{
    let r: Vec<String> = vec!["-axo".to_owned(), "pid=,ppid=,command=".to_owned()];
    assert(texts(r@) =~= seq!["-axo"@, "pid=,ppid=,command="@]);
    r
}

/// A row tells of the process with its first number, the child of the one with
/// its second, and the words behind them are the command line.
pub proof fn a_row_tells_of_its_process(pid: u32, ppid: u32, line: Seq<char>, args: Seq<Seq<char>>)
    requires
        words_of(line) == seq![decimal_of(pid as nat), decimal_of(ppid as nat)] + args,
    ensures
        process_in(line) == Some((pid, ProcessView { ppid, command: joined(args, " "@) })),
{
    number::decimal_denotes_itself(pid as nat);
    number::decimal_denotes_itself(ppid as nat);
    assert(words_of(line).skip(2) =~= args);
    reveal_strlit(" ");
    assert(" "@ =~= seq![' ']);
}

/// Every process of the rows is in the table, as its last row tells of it, and
/// nothing else is.
pub proof fn the_table_holds_every_process(lines: Seq<Seq<char>>, k: int, pid: u32, p: ProcessView)
    requires
        0 <= k < lines.len(),
        process_in(lines[k]) == Some((pid, p)),
        forall|j: int|
            k < j < lines.len() ==> !((#[trigger] process_in(lines[j])) matches Some((q, _)) && q
                == pid),
    ensures
        table_of(lines).contains_key(pid),
        table_of(lines)[pid] == p,
    decreases lines.len(),
{
    if k < lines.len() - 1 {
        let front = lines.drop_last();
        assert forall|j: int| k < j < front.len() implies !((#[trigger] process_in(front[j]))
            matches Some((q, _)) && q == pid) by {
            assert(front[j] == lines[j]);
            assert(!(process_in(lines[j]) matches Some((q, _)) && q == pid));
        }
        the_table_holds_every_process(front, k, pid, p);
        assert(!(process_in(lines[lines.len() - 1]) matches Some((q, _)) && q == pid));
    }
}

/// What is in the table stands on some row.
pub proof fn the_table_invents_nothing(lines: Seq<Seq<char>>, pid: u32)
    requires
        table_of(lines).contains_key(pid),
    ensures
        exists|k: int|
            0 <= k < lines.len() && #[trigger] process_in(lines[k]) == Some(
                (pid, table_of(lines)[pid]),
            ),
    decreases lines.len(),
{
    let front = lines.drop_last();
    let last = lines.len() - 1;
    if process_in(lines.last()) matches Some((q, p)) && q == pid {
        assert(process_in(lines[last]) == Some((pid, table_of(lines)[pid])));
    } else {
        the_table_invents_nothing(front, pid);
        let k = choose|k: int|
            0 <= k < front.len() && #[trigger] process_in(front[k]) == Some(
                (pid, table_of(front)[pid]),
            );
        assert(process_in(lines[k]) == Some((pid, table_of(lines)[pid])));
    }
}

} // verus!
