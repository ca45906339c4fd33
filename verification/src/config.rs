//! The plugin's configuration: what is scanned, how it is shown, and which
//! listeners are left out.

use vstd::prelude::*;

use crate::number;
use crate::number::decimal_of;
use crate::pattern;
use crate::pattern::{captures_of, fault_of};
use crate::text;
use crate::text::texts;

verus! {

/// First port of the dynamic range.
pub const EPHEMERAL_PORT_START: u16 = 49152;

/// Most rows that a workspace can have.
pub const MOST_ROWS: u8 = 16;

/// The whole configuration.
#[derive(Debug)]
pub struct Config {
    pub scan: Scan,
    pub docker: Docker,
    pub urls: Urls,
    pub sidebar: Sidebar,
    pub picker: Picker,
}

/// How listeners are scanned and filtered.
#[derive(Debug)]
pub struct Scan {
    pub interval_seconds: u64,
    pub command_timeout_ms: u64,
    pub min_port: u16,
    pub ignore_processes: Vec<String>,
    /// If not empty, only these process names are considered.
    pub allow_processes: Vec<String>,
    /// Hide listeners on ports of the dynamic range (agent tooling, language
    /// servers), except those started from a pane.
    pub hide_ephemeral: bool,
    /// Regular expressions; one that matches the command line hides the
    /// listener.
    pub ignore_commands: Vec<String>,
}

/// Whether container ports are included.
#[derive(Debug)]
pub struct Docker {
    pub enabled: bool,
}

/// How URLs are inferred.
#[derive(Debug)]
pub struct Urls {
    pub default_scheme: String,
    pub https_ports: Vec<u16>,
    pub prefer_hostname: bool,
}

/// How the sidebar is filled.
#[derive(Debug)]
pub struct Sidebar {
    pub enabled: bool,
    /// Number of tokens reported for each workspace, from 1 to [`MOST_ROWS`].
    pub max_rows: u8,
}

/// How the picker behaves.
#[derive(Debug)]
pub struct Picker {
    pub confirm_kill: bool,
}

impl Default for Scan {
    /// What suits most machines.
    fn default() -> (r: Self)
        ensures
            r.interval_seconds == 15,
            r.command_timeout_ms == 4000,
            r.min_port == 1024,
            texts(r.ignore_processes@) == seq![
                "rapportd"@,
                "sharingd"@,
                "ControlCenter"@,
                "com.docker.backend"@,
                "omp"@,
                "Google Chrome for Testing"@,
            ],
            r.allow_processes@.len() == 0,
            r.hide_ephemeral,
            r.ignore_commands@.len() == 0,
    {
        let ignore_processes: Vec<String> = vec![
            "rapportd".to_owned(),
            "sharingd".to_owned(),
            "ControlCenter".to_owned(),
            "com.docker.backend".to_owned(),
            "omp".to_owned(),
            "Google Chrome for Testing".to_owned(),
        ];
        assert(texts(ignore_processes@) =~= seq![
            "rapportd"@,
            "sharingd"@,
            "ControlCenter"@,
            "com.docker.backend"@,
            "omp"@,
            "Google Chrome for Testing"@,
        ]);
        Scan {
            interval_seconds: 15,
            command_timeout_ms: 4000,
            min_port: 1024,
            ignore_processes,
            allow_processes: Vec::new(),
            hide_ephemeral: true,
            ignore_commands: Vec::new(),
        }
    }
}

impl Default for Docker {
    fn default() -> (r: Self)
        ensures
            r.enabled,
    {
        Docker { enabled: true }
    }
}

impl Default for Urls {
    fn default() -> (r: Self)
        ensures
            r.default_scheme@ == "http"@,
            r.https_ports@ == seq![443u16, 8443u16],
            r.prefer_hostname,
    {
        let https_ports: Vec<u16> = vec![443u16, 8443u16];
        assert(https_ports@ =~= seq![443u16, 8443u16]);
        Urls { default_scheme: "http".to_owned(), https_ports, prefer_hostname: true }
    }
}

impl Default for Sidebar {
    fn default() -> (r: Self)
        ensures
            r.enabled,
            r.max_rows == 8,
    {
        Sidebar { enabled: true, max_rows: 8 }
    }
}

impl Default for Picker {
    fn default() -> (r: Self)
        ensures
            r.confirm_kill,
    {
        Picker { confirm_kill: true }
    }
}

/// These are the default settings.
pub open spec fn is_default(c: Config) -> bool {
    &&& c.scan.interval_seconds == 15
    &&& c.scan.command_timeout_ms == 4000
    &&& c.scan.min_port == 1024
    &&& texts(c.scan.ignore_processes@) == seq![
        "rapportd"@,
        "sharingd"@,
        "ControlCenter"@,
        "com.docker.backend"@,
        "omp"@,
        "Google Chrome for Testing"@,
    ]
    &&& c.scan.allow_processes@.len() == 0
    &&& c.scan.hide_ephemeral
    &&& c.scan.ignore_commands@.len() == 0
    &&& c.docker.enabled
    &&& c.urls.default_scheme@ == "http"@
    &&& c.urls.https_ports@ == seq![443u16, 8443u16]
    &&& c.urls.prefer_hostname
    &&& c.sidebar.enabled
    &&& c.sidebar.max_rows == 8
    &&& c.picker.confirm_kill
}

impl Default for Config {
    fn default() -> (r: Self)
        ensures
            is_default(r),
    {
        Config {
            scan: Scan::default(),
            docker: Docker::default(),
            urls: Urls::default(),
            sidebar: Sidebar::default(),
            picker: Picker::default(),
        }
    }
}

/// Why a configuration is refused.
#[derive(Debug, PartialEq, Eq)]
pub enum ConfigError {
    /// A command pattern is no regular expression; what is wrong with it.
    Pattern(String),
    /// The number of rows is out of range.
    MaxRows,
}

impl ConfigError {
    /// The error in words.
    pub fn message(&self) -> (r: String)
        ensures
            r@ == match self {
                ConfigError::Pattern(m) => m@,
                ConfigError::MaxRows => "sidebar.max_rows must be between 1 and 16"@,
            },
    {
        match self {
            ConfigError::Pattern(m) => m.clone(),
            ConfigError::MaxRows => "sidebar.max_rows must be between 1 and 16".to_owned(),
        }
    }
}

/// Pattern `i` is no regular expression, and none before it is faulty.
pub open spec fn first_fault(patterns: Seq<Seq<char>>, i: int) -> bool {
    &&& 0 <= i < patterns.len()
    &&& fault_of(patterns[i]) is Some
    &&& forall|j: int| 0 <= j < i ==> fault_of(#[trigger] patterns[j]) is None
}

/// `name` passes the lists: it is allowed where any are, and else not ignored.
pub open spec fn listed(c: Config, name: Seq<char>) -> bool {
    if c.scan.allow_processes@.len() > 0 {
        texts(c.scan.allow_processes@).contains(name)
    } else {
        !texts(c.scan.ignore_processes@).contains(name)
    }
}

/// Some pattern matches the command line.
pub open spec fn hidden(c: Config, command: Seq<char>) -> bool {
    exists|i: int|
        0 <= i < c.scan.ignore_commands@.len() && captures_of(
            (#[trigger] texts(c.scan.ignore_commands@)[i]),
            command,
        ) is Some
}

/// A listener passes the filters, where `hidden` says whether a pattern matches
/// its command line. One that is advertised may have a low port, and one that
/// descends from a pane's shell may have any high one.
pub open spec fn passes(
    c: Config,
    port: u16,
    name: Seq<char>,
    hidden: bool,
    from_pane: bool,
    advertised: bool,
) -> bool {
    &&& port >= c.scan.min_port || advertised
    &&& !(c.scan.hide_ephemeral && port >= EPHEMERAL_PORT_START && !from_pane)
    &&& !hidden
    &&& listed(c, name)
}

impl Config {
    /// Whether the settings are in range and the patterns regular expressions.
    pub fn check(&self) -> (r: Result<(), ConfigError>)
        ensures
            r is Ok <==> (forall|i: int|
                0 <= i < self.scan.ignore_commands@.len() ==> fault_of(
                    #[trigger] texts(self.scan.ignore_commands@)[i],
                ) is None) && 1 <= self.sidebar.max_rows <= MOST_ROWS,
            r matches Err(ConfigError::Pattern(m)) ==> exists|i: int| #[trigger]
                first_fault(texts(self.scan.ignore_commands@), i) && fault_of(
                    texts(self.scan.ignore_commands@)[i],
                ) == Some(m@),
            r matches Err(ConfigError::MaxRows) ==> (forall|i: int|
                0 <= i < self.scan.ignore_commands@.len() ==> fault_of(
                    #[trigger] texts(self.scan.ignore_commands@)[i],
                ) is None) && !(1 <= self.sidebar.max_rows <= MOST_ROWS),
    {
        let ghost all = texts(self.scan.ignore_commands@);
        let mut i: usize = 0;
        while i < self.scan.ignore_commands.len()
            invariant
                i <= self.scan.ignore_commands@.len(),
                all == texts(self.scan.ignore_commands@),
                forall|j: int| 0 <= j < i ==> fault_of(#[trigger] all[j]) is None,
            decreases self.scan.ignore_commands.len() - i,
        {
            assert(all[i as int] == self.scan.ignore_commands@[i as int]@);
            if let Some(m) = pattern::fault(self.scan.ignore_commands[i].as_str()) {
                assert(first_fault(all, i as int));
                return Err(ConfigError::Pattern(m));
            }
            i = i + 1;
        }
        self.check_range()
    }

    /// Whether the settings are in range.
    pub fn check_range(&self) -> (r: Result<(), ConfigError>)
        ensures
            r is Ok <==> 1 <= self.sidebar.max_rows <= MOST_ROWS,
            r matches Err(e) ==> e is MaxRows,
    {
        if 1 <= self.sidebar.max_rows && self.sidebar.max_rows <= MOST_ROWS {
            Ok(())
        } else {
            Err(ConfigError::MaxRows)
        }
    }

    /// Seconds between scans.
    pub fn interval(&self) -> (r: u64)
        ensures
            r == if self.scan.interval_seconds < 1 {
                1
            } else {
                self.scan.interval_seconds
            },
    {
        if self.scan.interval_seconds < 1 {
            1
        } else {
            self.scan.interval_seconds
        }
    }

    /// Milliseconds that an outside command may take.
    pub fn command_timeout(&self) -> (r: u64)
        ensures
            r == if self.scan.command_timeout_ms < 100 {
                100
            } else {
                self.scan.command_timeout_ms
            },
    {
        if self.scan.command_timeout_ms < 100 {
            100
        } else {
            self.scan.command_timeout_ms
        }
    }

    /// Milliseconds that a sidebar token lives: six intervals, so that the rows
    /// of a dead daemon fade on their own.
    pub fn sidebar_ttl_ms(&self) -> (r: u64)
        requires
            ttl_fits(self.scan.interval_seconds),
        ensures
            r == ttl_of(self.scan.interval_seconds),
    {
        let ms: u128 = (self.interval() as u128) * 1000;
        let low: u64 = (ms % 0x1_0000_0000_0000_0000) as u64;
        low * 6
    }

    /// Whether some pattern matches the command line.
    pub fn hides(&self, command: &str) -> (r: bool)
        ensures
            r == hidden(*self, command@),
    {
        let ghost all = texts(self.scan.ignore_commands@);
        let mut i: usize = 0;
        while i < self.scan.ignore_commands.len()
            invariant
                i <= self.scan.ignore_commands@.len(),
                all == texts(self.scan.ignore_commands@),
                forall|j: int| 0 <= j < i ==> captures_of(#[trigger] all[j], command@) is None,
            decreases self.scan.ignore_commands.len() - i,
        {
            assert(all[i as int] == self.scan.ignore_commands@[i as int]@);
            if pattern::captures(self.scan.ignore_commands[i].as_str(), command).is_some() {
                assert(captures_of(all[i as int], command@) is Some);
                return true;
            }
            i = i + 1;
        }
        false
    }

    /// Whether `name` passes the lists of processes.
    pub fn lists(&self, name: &str) -> (r: bool)
        ensures
            r == listed(*self, name@),
    {
        if self.scan.allow_processes.len() > 0 {
            text::has_text(&self.scan.allow_processes, name)
        } else {
            !text::has_text(&self.scan.ignore_processes, name)
        }
    }

    /// Whether a listener passes the filters, where `hidden` says whether a
    /// pattern matches its command line.
    pub fn admits(
        &self,
        port: u16,
        process_name: &str,
        hidden: bool,
        from_pane: bool,
        advertised: bool,
    ) -> (r: bool)
        ensures
            r == passes(*self, port, process_name@, hidden, from_pane, advertised),
    {
        if port < self.scan.min_port && !advertised {
            return false;
        }
        if self.scan.hide_ephemeral && port >= EPHEMERAL_PORT_START && !from_pane {
            return false;
        }
        !hidden && self.lists(process_name)
    }

    /// Whether a detected listener passes the port, name and command-line
    /// filters, without regard to where it comes from.
    pub fn accepts(&self, port: u16, process_name: &str, command: &str) -> (r: bool)
        ensures
            r == passes(*self, port, process_name@, hidden(*self, command@), false, false),
    {
        self.admits(port, process_name, self.hides(command), false, false)
    }

    /// Whether a published container port passes the filters: publishing it was
    /// meant, so a high port is no reason to hide it.
    pub fn accepts_container(&self, port: u16, service: &str, advertised: bool) -> (r: bool)
        ensures
            r == passes(*self, port, service@, false, true, advertised),
    {
        self.admits(port, service, false, true, advertised)
    }

    /// The URL inferred for a port.
    pub fn url_for(&self, port: u16) -> (r: String)
        ensures
            r@ == inferred_url(*self, port),
    {
        let mut secure = false;
        let mut i: usize = 0;
        while i < self.urls.https_ports.len()
            invariant
                i <= self.urls.https_ports@.len(),
                secure == exists|j: int|
                    0 <= j < i && #[trigger] self.urls.https_ports@[j] == port,
            decreases self.urls.https_ports.len() - i,
        {
            if self.urls.https_ports[i] == port {
                assert(self.urls.https_ports@[i as int] == port);
                secure = true;
            }
            i = i + 1;
        }
        proof {
            assert(secure == self.urls.https_ports@.contains(port));
        }
        let mut out: String = if secure {
            "https".to_owned()
        } else {
            self.urls.default_scheme.clone()
        };
        text::push_text(&mut out, "://localhost:");
        text::push_text(&mut out, number::decimal(port as u64).as_str());
        out
    }
}

/// The URL inferred for a port: `https` on the ports listed for it, else the
/// default scheme.
pub open spec fn inferred_url(c: Config, port: u16) -> Seq<char> {
    (if c.urls.https_ports@.contains(port) {
        "https"@
    } else {
        c.urls.default_scheme@
    }) + "://localhost:"@ + decimal_of(port as nat)
}

/// The milliseconds of an interval in 64 bits.
pub open spec fn interval_ms(seconds: u64) -> int {
    (if seconds < 1 {
        1000
    } else {
        seconds * 1000
    }) % 0x1_0000_0000_0000_0000
}

/// Six intervals fit into 64 bits.
pub open spec fn ttl_fits(seconds: u64) -> bool {
    interval_ms(seconds) * 6 <= u64::MAX
}

/// Six intervals, in milliseconds.
pub open spec fn ttl_of(seconds: u64) -> int {
    interval_ms(seconds) * 6
}

/// A listener that passes with fewer exemptions passes with more.
pub proof fn exemptions_hide_nothing(
    c: Config,
    port: u16,
    name: Seq<char>,
    hidden: bool,
    from_pane: bool,
    advertised: bool,
)
    ensures
        passes(c, port, name, hidden, false, false) ==> passes(
            c,
            port,
            name,
            hidden,
            from_pane,
            advertised,
        ),
        hidden ==> !passes(c, port, name, hidden, from_pane, advertised),
{
}

/// Each filter does what it is configured for: a low port passes only where it is
/// advertised, a port of the dynamic range only from a pane or where such ports
/// are not hidden, and nothing passes whose command line is to be ignored.
pub proof fn ports_pass_as_configured(
    c: Config,
    port: u16,
    name: Seq<char>,
    hidden: bool,
    from_pane: bool,
    advertised: bool,
)
    ensures
        port < c.scan.min_port && !advertised ==> !passes(
            c,
            port,
            name,
            hidden,
            from_pane,
            advertised,
        ),
        port >= 49152 && c.scan.hide_ephemeral && !from_pane ==> !passes(
            c,
            port,
            name,
            hidden,
            from_pane,
            advertised,
        ),
        (port >= c.scan.min_port || advertised) && (port < 49152 || from_pane
            || !c.scan.hide_ephemeral) && !hidden ==> passes(
            c,
            port,
            name,
            hidden,
            from_pane,
            advertised,
        ) == listed(c, name),
{
}

/// Where names are allowed, these pass and no others; else all pass but those
/// that are ignored.
pub proof fn names_pass_as_configured(
    c: Config,
    port: u16,
    name: Seq<char>,
    from_pane: bool,
    advertised: bool,
    k: int,
)
    ensures
        c.scan.allow_processes@.len() > 0 && (forall|i: int|
            0 <= i < c.scan.allow_processes@.len() ==> (#[trigger] c.scan.allow_processes@[i])@
                != name) ==> !passes(c, port, name, false, from_pane, advertised),
        c.scan.allow_processes@.len() == 0 && 0 <= k < c.scan.ignore_processes@.len()
            && c.scan.ignore_processes@[k]@ == name ==> !passes(
            c,
            port,
            name,
            false,
            from_pane,
            advertised,
        ),
        c.scan.min_port <= port < 49152 && 0 <= k < c.scan.allow_processes@.len()
            && c.scan.allow_processes@[k]@ == name ==> passes(
            c,
            port,
            name,
            false,
            from_pane,
            advertised,
        ),
        c.scan.min_port <= port < 49152 && c.scan.allow_processes@.len() == 0 && (forall|i: int|
            0 <= i < c.scan.ignore_processes@.len() ==> (#[trigger] c.scan.ignore_processes@[i])@
                != name) ==> passes(c, port, name, false, from_pane, advertised),
{
    let allowed = texts(c.scan.allow_processes@);
    let ignored = texts(c.scan.ignore_processes@);
    if 0 <= k < c.scan.allow_processes@.len() && c.scan.allow_processes@[k]@ == name {
        assert(allowed[k] == name);
    }
    if 0 <= k < c.scan.ignore_processes@.len() && c.scan.ignore_processes@[k]@ == name {
        assert(ignored[k] == name);
    }
    assert(forall|i: int| 0 <= i < allowed.len() ==> #[trigger] allowed[i]
        == c.scan.allow_processes@[i]@);
    assert(forall|i: int| 0 <= i < ignored.len() ==> #[trigger] ignored[i]
        == c.scan.ignore_processes@[i]@);
}

/// A command line is hidden by any one of the patterns, and by nothing else.
pub proof fn any_pattern_hides(c: Config, command: Seq<char>, k: int)
    ensures
        0 <= k < c.scan.ignore_commands@.len() && captures_of(
            c.scan.ignore_commands@[k]@,
            command,
        ) is Some ==> hidden(c, command),
        (forall|i: int|
            0 <= i < c.scan.ignore_commands@.len() ==> captures_of(
                (#[trigger] c.scan.ignore_commands@[i])@,
                command,
            ) is None) ==> !hidden(c, command),
{
    let all = texts(c.scan.ignore_commands@);
    if 0 <= k < all.len() {
        assert(all[k] == c.scan.ignore_commands@[k]@);
    }
    assert(forall|i: int| 0 <= i < all.len() ==> #[trigger] all[i]
        == c.scan.ignore_commands@[i]@);
}

/// The inferred URL points at the port on this machine; the scheme is the
/// configured one but for the ports that are secure.
pub proof fn an_inferred_url_names_its_port(c: Config, port: u16, k: int)
    ensures
        0 <= k < c.urls.https_ports@.len() && c.urls.https_ports@[k] == port ==> inferred_url(
            c,
            port,
        ) == "https://localhost:"@ + decimal_of(port as nat),
        (forall|i: int|
            0 <= i < c.urls.https_ports@.len() ==> #[trigger] c.urls.https_ports@[i] != port)
            ==> inferred_url(c, port) == c.urls.default_scheme@ + "://localhost:"@ + decimal_of(
            port as nat,
        ),
{
    reveal_strlit("https");
    reveal_strlit("://localhost:");
    reveal_strlit("https://localhost:");
    assert("https"@ + "://localhost:"@ =~= "https://localhost:"@);
}

/// A token outlives six scans.
pub proof fn tokens_live_for_six_intervals(seconds: u64)
    requires
        seconds <= 1_000_000_000,
    ensures
        seconds >= 1 ==> ttl_of(seconds) == 6000 * seconds,
        seconds == 0 ==> ttl_of(seconds) == 6000,
        ttl_fits(seconds),
{
}

} // verus!
