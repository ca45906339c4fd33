//! What a scan of the machine sees: listeners and the process table.

use std::collections::HashMap;

use vstd::prelude::*;

use crate::number;
use crate::number::port_of;
use crate::text;
use crate::text::rsplit_once_of;

pub mod docker;
pub mod lsof;
pub mod procfs;
pub mod ps;

verus! {

/// One TCP socket in LISTEN state.
#[derive(Debug, PartialEq, Eq)]
pub struct Listener {
    pub pid: u32,
    pub port: u16,
    /// Bound address as the system reports it (`*`, `127.0.0.1`, `[::1]`, …).
    pub addr: String,
    pub process_name: String,
}

/// A [`Listener`] with its texts as characters.
#[verifier::ext_equal]
pub struct ListenerView {
    pub pid: u32,
    pub port: u16,
    pub addr: Seq<char>,
    pub process_name: Seq<char>,
}

impl View for Listener {
    type V = ListenerView;

    open spec fn view(&self) -> ListenerView {
        ListenerView {
            pid: self.pid,
            port: self.port,
            addr: self.addr@,
            process_name: self.process_name@,
        }
    }
}

/// The listeners of a vector, with their texts as characters.
pub open spec fn listeners_view(v: Seq<Listener>) -> Seq<ListenerView> {
    v.map_values(|l: Listener| l@)
}

/// What the process table says of a process.
#[derive(Debug, PartialEq, Eq)]
pub struct ProcessInfo {
    pub ppid: u32,
    /// Full command line, arguments joined with spaces.
    pub command: String,
}

/// A [`ProcessInfo`] with its text as characters.
#[verifier::ext_equal]
pub struct ProcessView {
    pub ppid: u32,
    pub command: Seq<char>,
}

impl View for ProcessInfo {
    type V = ProcessView;

    open spec fn view(&self) -> ProcessView {
        ProcessView { ppid: self.ppid, command: self.command@ }
    }
}

/// The processes of a table, with their texts as characters.
pub open spec fn processes_view(m: Map<u32, ProcessInfo>) -> Map<u32, ProcessView> {
    m.map_values(|p: ProcessInfo| p@)
}

/// The paths of a table, as characters.
pub open spec fn paths_view(m: Map<u32, String>) -> Map<u32, Seq<char>> {
    m.map_values(|p: String| p@)
}

/// One scan: the listeners, and the process metadata that attribution needs.
#[derive(Debug)]
pub struct Snapshot {
    pub listeners: Vec<Listener>,
    /// Whole process table, by process id.
    pub processes: HashMap<u32, ProcessInfo>,
    /// Working directories of the listening processes only.
    pub cwds: HashMap<u32, String>,
}

/// A [`Snapshot`] with its texts as characters.
#[verifier::ext_equal]
pub struct SnapshotView {
    pub listeners: Seq<ListenerView>,
    pub processes: Map<u32, ProcessView>,
    pub cwds: Map<u32, Seq<char>>,
}

impl View for Snapshot {
    type V = SnapshotView;

    open spec fn view(&self) -> SnapshotView {
        SnapshotView {
            listeners: listeners_view(self.listeners@),
            processes: processes_view(self.processes@),
            cwds: paths_view(self.cwds@),
        }
    }
}

impl Default for Snapshot {
    fn default() -> (r: Self)
        ensures
            r@ == (SnapshotView {
                listeners: seq![],
                processes: Map::empty(),
                cwds: Map::empty(),
            }),
    {
        let r = Snapshot { listeners: Vec::new(), processes: HashMap::new(), cwds: HashMap::new() };
        assert(r@.listeners =~= seq![]);
        assert(r@.processes =~= Map::empty());
        assert(r@.cwds =~= Map::empty());
        r
    }
}

/// How many generations an ancestry is followed.
pub const MAX_HOPS: usize = 64;

/// The parent of `pid`, but for the first processes of the system and for a
/// process that is its own parent.
pub open spec fn proper_parent(table: Map<u32, ProcessView>, pid: u32) -> Option<u32> {
    if table.contains_key(pid) && table[pid].ppid > 1 && table[pid].ppid != pid {
        Some(table[pid].ppid)
    } else {
        None
    }
}

/// The first `n` processes above `cur`, nearest first, up to where the walk
/// comes back to `pid`.
pub open spec fn climb(table: Map<u32, ProcessView>, pid: u32, cur: u32, n: nat) -> Seq<u32>
    decreases n,
{
    if n == 0 {
        seq![]
    } else {
        match proper_parent(table, cur) {
            Some(p) => if p == pid {
                seq![]
            } else {
                seq![p] + climb(table, pid, p, (n - 1) as nat)
            },
            None => seq![],
        }
    }
}

/// The first `n` ancestors of `pid`, nearest first, without `pid` itself.
pub open spec fn ancestry(table: Map<u32, ProcessView>, pid: u32, n: nat) -> Seq<u32> {
    climb(table, pid, pid, n)
}

impl Snapshot {
    /// The parent of `pid`.
    pub fn parent_of(&self, pid: u32) -> (r: Option<u32>)
        ensures
            r == if self@.processes.contains_key(pid) {
                Some(self@.processes[pid].ppid)
            } else {
                None
            },
    {
        broadcast use vstd::std_specs::hash::group_hash_axioms;

        match self.processes.get(&pid) {
            Some(p) => Some(p.ppid),
            None => None,
        }
    }

    /// The command line of `pid`.
    pub fn command_of(&self, pid: u32) -> (r: Option<String>)
        ensures
            text::opt_text(r) == if self@.processes.contains_key(pid) {
                Some(self@.processes[pid].command)
            } else {
                None
            },
    {
        broadcast use vstd::std_specs::hash::group_hash_axioms;

        match self.processes.get(&pid) {
            Some(p) => Some(p.command.clone()),
            None => None,
        }
    }

    /// The working directory of `pid`.
    pub fn cwd_of(&self, pid: u32) -> (r: Option<String>)
        ensures
            text::opt_text(r) == if self@.cwds.contains_key(pid) {
                Some(self@.cwds[pid])
            } else {
                None
            },
    {
        broadcast use vstd::std_specs::hash::group_hash_axioms;

        match self.cwds.get(&pid) {
            Some(p) => Some(p.clone()),
            None => None,
        }
    }

    /// The ancestors of `pid`, nearest first, without `pid` itself. The walk
    /// ends before the first processes of the system, where it comes back to
    /// `pid`, and after [`MAX_HOPS`], so that it ends on every cycle.
    pub fn ancestors(&self, pid: u32) -> (r: Vec<u32>)
        ensures
            r@ == ancestry(self@.processes, pid, MAX_HOPS as nat),
            r@.len() <= MAX_HOPS,
            !r@.contains(pid),
            forall|i: int| 0 <= i < r@.len() ==> #[trigger] r@[i] > 1,
    {
        let ghost table = self@.processes;
        let mut out: Vec<u32> = Vec::new();
        let mut cur: u32 = pid;
        let mut hops: usize = 0;
        let mut go = true;
        while go && hops < MAX_HOPS
            invariant
                table == self@.processes,
                hops <= MAX_HOPS,
                out@.len() == hops,
                climb(table, pid, pid, MAX_HOPS as nat) == if go {
                    out@ + climb(table, pid, cur, (MAX_HOPS - hops) as nat)
                } else {
                    out@
                },
                forall|i: int| 0 <= i < out@.len() ==> #[trigger] out@[i] > 1 && out@[i] != pid,
            decreases MAX_HOPS - hops + (if go {
                1int
            } else {
                0
            }),
        {
            match self.parent_of(cur) {
                Some(parent) => {
                    if parent > 1 && parent != cur && parent != pid {
                        let ghost before = out@;
                        let ghost rest = climb(table, pid, parent, (MAX_HOPS - hops - 1) as nat);
                        out.push(parent);
                        assert(before + (seq![parent] + rest) =~= out@ + rest);
                        cur = parent;
                        hops = hops + 1;
                    } else {
                        assert(out@ + Seq::<u32>::empty() =~= out@);
                        go = false;
                    }
                },
                None => {
                    assert(out@ + Seq::<u32>::empty() =~= out@);
                    go = false;
                },
            }
        }
        assert(go ==> out@ + Seq::<u32>::empty() =~= out@);
        out
    }
}

/// `host:port`, where the host may hold colons itself.
pub open spec fn host_port_of(s: Seq<char>) -> Option<(Seq<char>, u16)> {
    match rsplit_once_of(s, ':') {
        Some((host, port)) => match port_of(port) {
            Some(p) => Some((host, p)),
            None => None,
        },
        None => None,
    }
}

/// Splits `host:port`, where the host may be `*`, an IPv4 or a bracketed IPv6
/// address.
pub fn split_host_port(s: &str) -> (r: Option<(String, u16)>)
    ensures
        r is Some <==> host_port_of(s@) is Some,
        r matches Some((host, port)) ==> host_port_of(s@) == Some((host@, port)),
{
    match text::rsplit_once(s, ':') {
        Some((host, port)) => match number::parse_port(port.as_str()) {
            Some(p) => Some((host, p)),
            None => None,
        },
        None => None,
    }
}

/// A host and a port can be read back from `host:port`, whatever the host holds.
pub proof fn a_bound_address_can_be_split(host: Seq<char>, port: u16)
    ensures
        host_port_of(host + seq![':'] + number::decimal_of(port as nat)) == Some((host, port)),
{
    let digits = number::decimal_of(port as nat);
    let s = host + seq![':'] + digits;
    number::decimal_denotes_itself(port as nat);
    assert forall|i: int| 0 <= i < digits.len() implies #[trigger] digits[i] != ':' by {
        assert(number::digit_of(digits[i], 10) is Some);
    }
    text::lemma_tail_run_unique(s, text::other_than(':'), digits.len() as int);
    assert(s.take(host.len() as int) =~= host);
    assert(s.skip(host.len() as int + 1) =~= digits);
}

} // verus!
