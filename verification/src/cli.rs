//! The command line: what it asks for, and what is answered on it.

use vstd::prelude::*;

use crate::daemon::Request;
use crate::manual;
use crate::manual::{complaint, target_of};
use crate::number;
use crate::number::decimal_of;
use crate::sidebar;
use crate::sidebar::{foreign_table, installed, removed, row_of};
use crate::state::Service;
use crate::text;
use crate::text::{lines_of, opt_text, texts};

verus! {

/// The name that the plugin is installed under.
pub const PLUGIN_ID: &'static str = "lucidstack.herdr-services";

/// What can be asked for.
pub const USAGE: &'static str = "usage: herdr-services <command> [flags]\n\n  daemon [--verbose]        run the detector in the foreground\n  ensure-daemon [--verbose] start the detector detached if it is not running\n  rescan                    ask the running daemon to scan now\n  open-picker               ensure the daemon, then open the picker popup\n  picker                    run the picker in this terminal\n  configure [--remove|--print|--no-reload]\n                            install the managed [ui.sidebar.spaces] block\n  add <label> <target> [--workspace <id>]\n                            register `:PORT` or a URL by hand\n  remove --label <label>    drop a manual registration\n  list [--workspace <id>] [--json]\n                            list the known services\n  doctor                    check environment, herdr, scanner and attribution\n  --version";

/// What a command line asks for.
#[derive(Debug, PartialEq, Eq)]
pub enum Invocation {
    Daemon { verbose: bool },
    EnsureDaemon { verbose: bool },
    Rescan,
    OpenPicker { verbose: bool },
    Picker,
    Configure { remove: bool, print: bool, reload: bool },
    Add { label: String, target: String, workspace: Option<String> },
    Remove { label: String },
    List { workspace: Option<String>, json: bool },
    Doctor,
    Version,
}

/// An [`Invocation`] with its texts as characters.
pub enum InvocationView {
    Daemon { verbose: bool },
    EnsureDaemon { verbose: bool },
    Rescan,
    OpenPicker { verbose: bool },
    Picker,
    Configure { remove: bool, print: bool, reload: bool },
    Add { label: Seq<char>, target: Seq<char>, workspace: Option<Seq<char>> },
    Remove { label: Seq<char> },
    List { workspace: Option<Seq<char>>, json: bool },
    Doctor,
    Version,
}

impl View for Invocation {
    type V = InvocationView;

    open spec fn view(&self) -> InvocationView {
        match self {
            Invocation::Daemon { verbose } => InvocationView::Daemon { verbose: *verbose },
            Invocation::EnsureDaemon { verbose } => InvocationView::EnsureDaemon {
                verbose: *verbose,
            },
            Invocation::Rescan => InvocationView::Rescan,
            Invocation::OpenPicker { verbose } => InvocationView::OpenPicker { verbose: *verbose },
            Invocation::Picker => InvocationView::Picker,
            Invocation::Configure { remove, print, reload } => InvocationView::Configure {
                remove: *remove,
                print: *print,
                reload: *reload,
            },
            Invocation::Add { label, target, workspace } => InvocationView::Add {
                label: label@,
                target: target@,
                workspace: opt_text(*workspace),
            },
            Invocation::Remove { label } => InvocationView::Remove { label: label@ },
            Invocation::List { workspace, json } => InvocationView::List {
                workspace: opt_text(*workspace),
                json: *json,
            },
            Invocation::Doctor => InvocationView::Doctor,
            Invocation::Version => InvocationView::Version,
        }
    }
}

/// A flag stands behind the command.
pub open spec fn has_flag(args: Seq<Seq<char>>, name: Seq<char>) -> bool {
    exists|i: int| 1 <= i < args.len() && #[trigger] args[i] == name
}

/// Where an option first stands behind the command, from `i` on; the number of
/// arguments where it does not.
pub open spec fn option_at(args: Seq<Seq<char>>, name: Seq<char>, i: int) -> int
    decreases args.len() - i,
{
    if i >= args.len() {
        args.len() as int
    } else if args[i] == name {
        i
    } else {
        option_at(args, name, i + 1)
    }
}

/// The value behind an option.
pub open spec fn option_of(args: Seq<Seq<char>>, name: Seq<char>) -> Option<Seq<char>> {
    let i = option_at(args, name, 1);
    if i + 1 < args.len() {
        Some(args[i + 1])
    } else {
        None
    }
}

/// What a command line asks for, or what is wrong with it.
pub open spec fn invocation_of(args: Seq<Seq<char>>) -> Result<InvocationView, Seq<char>> {
    if args.len() == 0 {
        Err(USAGE@)
    } else if args[0] == "daemon"@ {
        Ok(InvocationView::Daemon { verbose: has_flag(args, "--verbose"@) })
    } else if args[0] == "ensure-daemon"@ {
        Ok(InvocationView::EnsureDaemon { verbose: has_flag(args, "--verbose"@) })
    } else if args[0] == "rescan"@ {
        Ok(InvocationView::Rescan)
    } else if args[0] == "open-picker"@ {
        Ok(InvocationView::OpenPicker { verbose: has_flag(args, "--verbose"@) })
    } else if args[0] == "picker"@ {
        Ok(InvocationView::Picker)
    } else if args[0] == "configure"@ {
        Ok(
            InvocationView::Configure {
                remove: has_flag(args, "--remove"@),
                print: has_flag(args, "--print"@),
                reload: !has_flag(args, "--no-reload"@),
            },
        )
    } else if args[0] == "add"@ {
        if args.len() < 3 {
            Err("add needs a label and a target\n"@ + USAGE@)
        } else {
            Ok(
                InvocationView::Add {
                    label: args[1],
                    target: args[2],
                    workspace: option_of(args, "--workspace"@),
                },
            )
        }
    } else if args[0] == "remove"@ {
        match option_of(args, "--label"@) {
            Some(label) => Ok(InvocationView::Remove { label }),
            None => Err("remove needs --label\n"@ + USAGE@),
        }
    } else if args[0] == "list"@ {
        Ok(
            InvocationView::List {
                workspace: option_of(args, "--workspace"@),
                json: has_flag(args, "--json"@),
            },
        )
    } else if args[0] == "doctor"@ {
        Ok(InvocationView::Doctor)
    } else if args[0] == "--version"@ {
        Ok(InvocationView::Version)
    } else {
        Err("unknown command `"@ + args[0] + "`\n"@ + USAGE@)
    }
}

fn flag(args: &Vec<String>, name: &str) -> (r: bool)
    ensures
        r == has_flag(texts(args@), name@),
{
    let ghost all = texts(args@);
    let mut i: usize = 1;
    while i < args.len()
        invariant
            1 <= i,
            all == texts(args@),
            forall|j: int| 1 <= j < i && j < all.len() ==> #[trigger] all[j] != name@,
        decreases args.len() - i,
    {
        assert(all[i as int] == args@[i as int]@);
        if text::same(args[i].as_str(), name) {
            return true;
        }
        i = i + 1;
    }
    false
}

fn option(args: &Vec<String>, name: &str) -> (r: Option<String>)
    ensures
        opt_text(r) == option_of(texts(args@), name@),
{
    let ghost all = texts(args@);
    let n: usize = args.len();
    let mut i: usize = 1;
    while i < n
        invariant
            1 <= i,
            n == args@.len(),
            all == texts(args@),
            option_at(all, name@, 1) == option_at(all, name@, i as int),
        decreases n - i,
    {
        assert(all[i as int] == args@[i as int]@);
        if text::same(args[i].as_str(), name) {
            if n - i > 1 {
                assert(all[i + 1] == args@[i + 1]@);
                return Some(args[i + 1].clone());
            }
            return None;
        }
        i = i + 1;
    }
    None
}

/// What a command line asks for; its first word is the command.
pub fn parse(args: &Vec<String>) -> (r: Result<Invocation, String>)
    ensures
        match invocation_of(texts(args@)) {
            Ok(i) => r matches Ok(j) && j@ == i,
            Err(m) => r matches Err(n) && n@ == m,
        },
{
    let ghost all = texts(args@);
    if args.len() == 0 {
        return Err(USAGE.to_owned());
    }
    assert(all[0] == args@[0]@);
    let command: &str = args[0].as_str();
    if text::same(command, "daemon") {
        return Ok(Invocation::Daemon { verbose: flag(args, "--verbose") });
    }
    if text::same(command, "ensure-daemon") {
        return Ok(Invocation::EnsureDaemon { verbose: flag(args, "--verbose") });
    }
    if text::same(command, "rescan") {
        return Ok(Invocation::Rescan);
    }
    if text::same(command, "open-picker") {
        return Ok(Invocation::OpenPicker { verbose: flag(args, "--verbose") });
    }
    if text::same(command, "picker") {
        return Ok(Invocation::Picker);
    }
    if text::same(command, "configure") {
        return Ok(
            Invocation::Configure {
                remove: flag(args, "--remove"),
                print: flag(args, "--print"),
                reload: !flag(args, "--no-reload"),
            },
        );
    }
    if text::same(command, "add") {
        if args.len() < 3 {
            let mut m: String = "add needs a label and a target\n".to_owned();
            text::push_text(&mut m, USAGE);
            return Err(m);
        }
        assert(all[1] == args@[1]@);
        assert(all[2] == args@[2]@);
        return Ok(
            Invocation::Add {
                label: args[1].clone(),
                target: args[2].clone(),
                workspace: option(args, "--workspace"),
            },
        );
    }
    if text::same(command, "remove") {
        return match option(args, "--label") {
            Some(label) => Ok(Invocation::Remove { label }),
            None => {
                let mut m: String = "remove needs --label\n".to_owned();
                text::push_text(&mut m, USAGE);
                Err(m)
            },
        };
    }
    if text::same(command, "list") {
        return Ok(
            Invocation::List {
                workspace: option(args, "--workspace"),
                json: flag(args, "--json"),
            },
        );
    }
    if text::same(command, "doctor") {
        return Ok(Invocation::Doctor);
    }
    if text::same(command, "--version") {
        return Ok(Invocation::Version);
    }
    let mut m: String = "unknown command `".to_owned();
    text::push_text(&mut m, command);
    text::push_text(&mut m, "`\n");
    text::push_text(&mut m, USAGE);
    Err(m)
}

/// The request of a manual registration: for the workspace that is named, else
/// for the one that it comes from.
pub fn add_request(
    label: String,
    target: &str,
    workspace: Option<String>,
    current: Option<String>,
) -> (r: Result<Request, String>)
    ensures
        match (target_of(target@), workspace, current) {
            (Err(e), _, _) => r matches Err(m) && m@ == complaint(e, target@),
            (Ok((port, url)), Some(ws), _) => r matches Ok(
                Request::Add { workspace: w, label: l, port: p, url: u },
            ) && w@ == ws@ && l@ == label@ && p == port && opt_text(u) == url,
            (Ok((port, url)), None, Some(ws)) => r matches Ok(
                Request::Add { workspace: w, label: l, port: p, url: u },
            ) && w@ == ws@ && l@ == label@ && p == port && opt_text(u) == url,
            (Ok(_), None, None) => r matches Err(m) && m@
                == "no workspace: pass --workspace or run inside herdr"@,
        },
{
    let (port, url) = match manual::parse_target(target) {
        Ok(t) => t,
        Err(e) => {
            return Err(e.message(target));
        },
    };
    match (workspace, current) {
        (Some(workspace), _) => Ok(Request::Add { workspace, label, port, url }),
        (None, Some(workspace)) => Ok(Request::Add { workspace, label, port, url }),
        (None, None) => Err("no workspace: pass --workspace or run inside herdr".to_owned()),
    }
}

/// What becomes of the session's configuration.
#[derive(Debug, PartialEq, Eq)]
pub enum Edit {
    /// There is no block to remove.
    Nothing,
    /// This is written.
    Write(String),
    /// The user owns the table, for this reason.
    Refused(String),
}

/// Removes or installs the managed block.
pub fn edit(config: &str, remove: bool, max_rows: usize) -> (r: Edit)
    ensures
        if remove {
            if removed(config@) == config@ {
                r is Nothing
            } else {
                r matches Edit::Write(t) && t@ == removed(config@)
            }
        } else if foreign_table(lines_of(config@)) {
            r matches Edit::Refused(m) && m@
                == "config already defines [ui.sidebar.spaces] outside the herdr-services block"@
        } else {
            r matches Edit::Write(t) && t@ == installed(config@, max_rows as int)
        },
{
    if remove {
        let next = sidebar::remove_block(config);
        if text::same(next.as_str(), config) {
            Edit::Nothing
        } else {
            Edit::Write(next)
        }
    } else {
        match sidebar::install_block(config, max_rows) {
            Ok(next) => Edit::Write(next),
            Err(e) => Edit::Refused(e.message()),
        }
    }
}

/// What is said of a daemon that runs, and of the sessions cleaned up before it
/// was asked for.
pub fn daemon_line(pid: u32, swept: usize) -> (r: String)
    ensures
        r@ == "herdr-services daemon pid "@ + decimal_of(pid as nat) + (if swept > 0 {
            " (removed "@ + decimal_of(swept as nat) + " stale session dir(s))"@
        } else {
            seq![]
        }),
{
    let mut out: String = "herdr-services daemon pid ".to_owned();
    text::push_text(&mut out, number::decimal(pid as u64).as_str());
    let ghost front = out@;
    if swept > 0 {
        text::push_text(&mut out, " (removed ");
        text::push_text(&mut out, number::decimal(swept as u64).as_str());
        text::push_text(&mut out, " stale session dir(s))");
    }
    assert(out@ =~= front + (if swept > 0 {
        " (removed "@ + decimal_of(swept as nat) + " stale session dir(s))"@
    } else {
        seq![]
    }));
    out
}

/// A service as a line of the list.
pub fn list_line(service: &Service) -> (r: String)
    ensures
        r@ == service.workspace_id@ + "  "@ + row_of(service@) + "  "@ + service.url@,
{
    let mut out: String = service.workspace_id.clone();
    text::push_text(&mut out, "  ");
    text::push_text(&mut out, sidebar::row_text(service).as_str());
    text::push_text(&mut out, "  ");
    text::push_text(&mut out, service.url.as_str());
    out
}

proof fn lemma_option_first(args: Seq<Seq<char>>, name: Seq<char>, i: int, k: int)
    requires
        0 <= i <= k < args.len(),
        args[k] == name,
        forall|j: int| i <= j < k ==> #[trigger] args[j] != name,
    ensures
        option_at(args, name, i) == k,
    decreases k - i,
{
    if i < k {
        lemma_option_first(args, name, i + 1, k);
    }
}

proof fn lemma_option_absent(args: Seq<Seq<char>>, name: Seq<char>, i: int)
    requires
        0 <= i,
        forall|j: int| i <= j < args.len() ==> #[trigger] args[j] != name,
    ensures
        option_at(args, name, i) >= args.len(),
    decreases args.len() - i,
{
    if i < args.len() {
        lemma_option_absent(args, name, i + 1);
    }
}

/// The value of an option is what stands behind it, where it first stands behind
/// the command; an option that is absent or last has none.
pub proof fn an_option_has_the_value_behind_it(args: Seq<Seq<char>>, name: Seq<char>, k: int)
    ensures
        1 <= k < args.len() - 1 && args[k] == name && (forall|j: int|
            1 <= j < k ==> #[trigger] args[j] != name) ==> option_of(args, name) == Some(
            args[k + 1],
        ),
        (forall|j: int| 1 <= j < args.len() - 1 ==> #[trigger] args[j] != name) ==> option_of(
            args,
            name,
        ) is None,
{
    if 1 <= k < args.len() - 1 && args[k] == name && (forall|j: int|
        1 <= j < k ==> #[trigger] args[j] != name) {
        lemma_option_first(args, name, 1, k);
    }
    if forall|j: int| 1 <= j < args.len() - 1 ==> #[trigger] args[j] != name {
        let last = args.len() - 1;
        if last >= 1 && args[last] == name {
            lemma_option_first(args, name, 1, last);
        } else {
            lemma_option_absent(args, name, 1);
        }
    }
}

/// Each command asks for what it is called, with its own flags: one flag changes
/// one thing.
pub proof fn a_command_asks_for_what_it_is_called(rest: Seq<Seq<char>>)
    ensures
        invocation_of(seq!["daemon"@] + rest) == Ok::<_, Seq<char>>(
            InvocationView::Daemon { verbose: rest.contains("--verbose"@) },
        ),
        invocation_of(seq!["ensure-daemon"@] + rest) == Ok::<_, Seq<char>>(
            InvocationView::EnsureDaemon { verbose: rest.contains("--verbose"@) },
        ),
        invocation_of(seq!["rescan"@] + rest) == Ok::<_, Seq<char>>(InvocationView::Rescan),
        invocation_of(seq!["open-picker"@] + rest) == Ok::<_, Seq<char>>(
            InvocationView::OpenPicker { verbose: rest.contains("--verbose"@) },
        ),
        invocation_of(seq!["picker"@] + rest) == Ok::<_, Seq<char>>(InvocationView::Picker),
        invocation_of(seq!["doctor"@] + rest) == Ok::<_, Seq<char>>(InvocationView::Doctor),
        invocation_of(seq!["--version"@] + rest) == Ok::<_, Seq<char>>(InvocationView::Version),
{
    lemma_command_words();
    lemma_flag_behind("daemon"@, rest, "--verbose"@);
    lemma_flag_behind("ensure-daemon"@, rest, "--verbose"@);
    lemma_flag_behind("open-picker"@, rest, "--verbose"@);
}

/// The commands with arguments of their own ask for what these say.
pub proof fn arguments_are_taken_as_given(
    label: Seq<char>,
    target: Seq<char>,
    rest: Seq<Seq<char>>,
    other: Seq<char>,
)
    ensures
        invocation_of(seq!["configure"@] + rest) == Ok::<_, Seq<char>>(
            InvocationView::Configure {
                remove: rest.contains("--remove"@),
                print: rest.contains("--print"@),
                reload: !rest.contains("--no-reload"@),
            },
        ),
        invocation_of(seq!["add"@, label, target]) matches Ok(InvocationView::Add {
            label: l,
            target: t,
            workspace: w,
        }) && l == label && t == target && (label != "--workspace"@ ==> w is None),
        label != "--workspace"@ && target != "--workspace"@ ==> invocation_of(
            seq!["add"@, label, target, "--workspace"@, other],
        ) == Ok::<_, Seq<char>>(InvocationView::Add { label, target, workspace: Some(other) }),
        invocation_of(seq!["add"@, label]) is Err,
        invocation_of(seq!["remove"@, "--label"@, label]) == Ok::<_, Seq<char>>(
            InvocationView::Remove { label },
        ),
        invocation_of(seq!["remove"@]) is Err,
        invocation_of(seq!["list"@]) == Ok::<_, Seq<char>>(
            InvocationView::List { workspace: None, json: false },
        ),
        invocation_of(seq!["list"@, "--json"@]) == Ok::<_, Seq<char>>(
            InvocationView::List { workspace: None, json: true },
        ),
        other != "--json"@ ==> invocation_of(seq!["list"@, "--workspace"@, other]) == Ok::<
            _,
            Seq<char>,
        >(InvocationView::List { workspace: Some(other), json: false }),
        invocation_of(Seq::<Seq<char>>::empty()) is Err,
{
    lemma_command_words();
    lemma_flag_behind("configure"@, rest, "--remove"@);
    lemma_flag_behind("configure"@, rest, "--print"@);
    lemma_flag_behind("configure"@, rest, "--no-reload"@);
    let ws = "--workspace"@;
    let plain = seq!["add"@, label, target];
    let placed = seq!["add"@, label, target, ws, other];
    an_option_has_the_value_behind_it(plain, ws, 1);
    an_option_has_the_value_behind_it(placed, ws, 3);
    let gone = seq!["remove"@, "--label"@, label];
    an_option_has_the_value_behind_it(gone, "--label"@, 1);
    an_option_has_the_value_behind_it(seq!["remove"@], "--label"@, 1);
    reveal_strlit("--json");
    reveal_strlit("--workspace");
    let bare = seq!["list"@];
    let json = seq!["list"@, "--json"@];
    let scoped = seq!["list"@, ws, other];
    an_option_has_the_value_behind_it(bare, ws, 1);
    an_option_has_the_value_behind_it(json, ws, 1);
    an_option_has_the_value_behind_it(scoped, ws, 1);
    assert(!has_flag(bare, "--json"@));
    assert(json[1] == "--json"@);
    assert(has_flag(json, "--json"@));
    assert("--json"@.len() != ws.len());
}

proof fn lemma_flag_behind(command: Seq<char>, rest: Seq<Seq<char>>, name: Seq<char>)
    ensures
        has_flag(seq![command] + rest, name) == rest.contains(name),
{
    let args = seq![command] + rest;
    if rest.contains(name) {
        let k = choose|k: int| 0 <= k < rest.len() && rest[k] == name;
        assert(args[k + 1] == name);
    }
    if has_flag(args, name) {
        let k = choose|k: int| 1 <= k < args.len() && #[trigger] args[k] == name;
        assert(rest[k - 1] == name);
    }
}

proof fn lemma_command_words()
    ensures
        "daemon"@.len() == 6 && "daemon"@[1] == 'a',
        "ensure-daemon"@.len() == 13,
        "rescan"@.len() == 6 && "rescan"@[1] == 'e' && "rescan"@[2] == 's',
        "open-picker"@.len() == 11,
        "picker"@.len() == 6 && "picker"@[1] == 'i',
        "configure"@.len() == 9 && "configure"@[0] == 'c',
        "add"@.len() == 3,
        "remove"@.len() == 6 && "remove"@[1] == 'e' && "remove"@[2] == 'm',
        "list"@.len() == 4,
        "doctor"@.len() == 6 && "doctor"@[1] == 'o',
        "--version"@.len() == 9 && "--version"@[0] == '-',
{
    reveal_strlit("daemon");
    reveal_strlit("ensure-daemon");
    reveal_strlit("rescan");
    reveal_strlit("open-picker");
    reveal_strlit("picker");
    reveal_strlit("configure");
    reveal_strlit("add");
    reveal_strlit("remove");
    reveal_strlit("list");
    reveal_strlit("doctor");
    reveal_strlit("--version");
}

} // verus!
