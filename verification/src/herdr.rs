//! The session that the plugin runs in: what it is asked, what its answers
//! hold, and where the plugin keeps its files.

use vstd::prelude::*;

use crate::advertise::URL_PATTERN;
use crate::json;
use crate::json::{json_of, member_of, quoted, text_member_of, Json, JsonView};
use crate::number;
use crate::number::{decimal_of, hex_of};
use crate::path;
use crate::path::{is_absolute, under};
use crate::process::{Fault, FaultView};
use crate::state::pairs_of;
use crate::text;
use crate::text::{joined, opt_text, texts, trimmed};

verus! {

/// A workspace as the session lists it.
#[derive(Debug, PartialEq, Eq)]
pub struct Workspace {
    pub workspace_id: String,
    pub label: String,
    pub worktree: Option<Worktree>,
}

/// The worktree of a workspace.
#[derive(Debug, PartialEq, Eq)]
pub struct Worktree {
    pub checkout_path: String,
}

/// A pane as the session lists it.
#[derive(Debug, PartialEq, Eq)]
pub struct Pane {
    pub pane_id: String,
    pub workspace_id: String,
    pub cwd: Option<String>,
    pub foreground_cwd: Option<String>,
}

/// A [`Pane`] with its texts as characters.
#[verifier::ext_equal]
pub struct PaneInfo {
    pub pane_id: Seq<char>,
    pub workspace_id: Seq<char>,
    pub cwd: Option<Seq<char>>,
    pub foreground_cwd: Option<Seq<char>>,
}

impl View for Pane {
    type V = PaneInfo;

    open spec fn view(&self) -> PaneInfo {
        PaneInfo {
            pane_id: self.pane_id@,
            workspace_id: self.workspace_id@,
            cwd: opt_text(self.cwd),
            foreground_cwd: opt_text(self.foreground_cwd),
        }
    }
}

/// The session's answer to a ping.
#[derive(Debug, PartialEq, Eq)]
pub struct Pong {
    pub version: String,
    pub protocol: u32,
}

/// How the session is reached.
#[derive(Debug, PartialEq, Eq)]
pub struct Herdr {
    pub bin: String,
    pub socket: String,
    pub timeout_ms: u64,
}

// ---------------------------------------------------------------------------
// Answers
// ---------------------------------------------------------------------------

/// The fault without a cause.
pub open spec fn plain(text: Seq<char>) -> FaultView {
    FaultView { text, cause: None }
}

/// What an answer holds: its `result`, unless it is not JSON, holds an `error`,
/// or holds no result.
pub open spec fn result_in(
    j: JsonView,
    not_json: Seq<char>,
    call: Seq<char>,
) -> Result<Seq<char>, FaultView> {
    match j {
        JsonView::Malformed(cause) => Err(FaultView { text: not_json, cause: Some(cause) }),
        _ => match member_of(j, "error"@) {
            Some(e) => Err(plain("herdr "@ + call + ": "@ + e)),
            None => match member_of(j, "result"@) {
                Some(r) => Ok(r),
                None => Err(plain("herdr "@ + call + ": reply has no result"@)),
            },
        },
    }
}

/// A text result with its text and its fault as characters.
pub open spec fn text_result(r: Result<String, Fault>) -> Result<Seq<char>, FaultView> {
    match r {
        Ok(s) => Ok(s@),
        Err(f) => Err(f@),
    }
}

fn concat(a: &str, b: &str) -> (r: String)
    ensures
        r@ == a@ + b@,
{
    let mut out: String = a.to_owned();
    text::push_text(&mut out, b);
    out
}

/// What an answer holds, where its parts are these.
pub fn read_result(reply: &Json, not_json: String, call: &str) -> (r: Result<String, Fault>)
    ensures
        text_result(r) == result_in(reply@, not_json@, call@),
{
    if let Json::Malformed(cause) = reply {
        return Err(Fault { text: not_json, cause: Some(cause.clone()) });
    }
    let mut m: String = concat("herdr ", call);
    if let Some(e) = json::member(reply, "error") {
        text::push_text(&mut m, ": ");
        text::push_text(&mut m, e.as_str());
        return Err(Fault { text: m, cause: None });
    }
    match json::member(reply, "result") {
        Some(t) => Ok(t),
        None => {
            text::push_text(&mut m, ": reply has no result");
            Err(Fault { text: m, cause: None })
        },
    }
}

/// What a command's output holds; a command that changes something says nothing
/// where it succeeds.
pub open spec fn cli_result_of(args: Seq<Seq<char>>, stdout: Seq<char>) -> Result<
    Seq<char>,
    FaultView,
> {
    let call = joined(args, " "@);
    if trimmed(stdout).len() == 0 {
        Ok("null"@)
    } else {
        result_in(
            json_of(trimmed(stdout)),
            "herdr "@ + call + ": reply is not JSON"@,
            call,
        )
    }
}

/// What the output of the command with these arguments holds.
pub fn cli_result(args: &Vec<String>, stdout: &str) -> (r: Result<String, Fault>)
    ensures
        text_result(r) == cli_result_of(texts(args@), stdout@),
{
    let reply = text::trim(stdout);
    if reply.as_str().is_empty() {
        return Ok("null".to_owned());
    }
    let call = text::join(args, " ");
    let mut not_json: String = concat("herdr ", call.as_str());
    text::push_text(&mut not_json, ": reply is not JSON");
    read_result(&json::read(reply.as_str()), not_json, call.as_str())
}

/// What the answer to a call on the socket holds.
pub open spec fn socket_result_of(method: Seq<char>, reply: Seq<char>) -> Result<
    Seq<char>,
    FaultView,
> {
    result_in(json_of(trimmed(reply)), "socket reply is not JSON"@, method)
}

/// What the answer to this call on the socket holds.
pub fn socket_result(method: &str, reply: &str) -> (r: Result<String, Fault>)
    ensures
        text_result(r) == socket_result_of(method@, reply@),
{
    read_result(
        &json::read(text::trim(reply).as_str()),
        "socket reply is not JSON".to_owned(),
        method,
    )
}

/// A member of a result, or why there is none.
pub open spec fn field_in(j: JsonView, name: Seq<char>) -> Result<Seq<char>, FaultView> {
    match member_of(j, name) {
        Some(t) => Ok(t),
        None => Err(plain("herdr reply has no `"@ + name + "`"@)),
    }
}

/// A member of a result whose parts are these.
pub fn parse_field(result: &Json, name: &str) -> (r: Result<String, Fault>)
    ensures
        text_result(r) == field_in(result@, name@),
{
    match json::member(result, name) {
        Some(t) => Ok(t),
        None => {
            let mut m: String = concat("herdr reply has no `", name);
            text::push_text(&mut m, "`");
            Err(Fault { text: m, cause: None })
        },
    }
}

/// What a listing answers: the member `name` of its result.
pub open spec fn listed(args: Seq<Seq<char>>, name: Seq<char>, stdout: Seq<char>) -> Result<
    Seq<char>,
    FaultView,
> {
    match cli_result_of(args, stdout) {
        Ok(t) => field_in(json_of(t), name),
        Err(f) => Err(f),
    }
}

/// A command that lists something.
#[derive(Debug, PartialEq, Eq)]
pub struct Listing {
    pub args: Vec<String>,
    /// The member of the result that holds the list.
    pub field: &'static str,
}

impl Listing {
    /// The list in the command's output, as JSON text.
    pub fn read(&self, stdout: &str) -> (r: Result<String, Fault>)
        ensures
            text_result(r) == listed(texts(self.args@), self.field@, stdout@),
    {
        match cli_result(&self.args, stdout) {
            Ok(t) => parse_field(&json::read(t.as_str()), self.field),
            Err(f) => Err(f),
        }
    }
}

/// The process id in a member `shell_pid`, cut to 32 bits.
pub open spec fn pid_in(j: JsonView) -> Option<u32> {
    match j {
        JsonView::Number(Some(n)) => Some((n % 0x1_0000_0000) as u32),
        _ => None,
    }
}

/// The shell's process id in the result of a query for it.
pub open spec fn shell_pid_in(result: JsonView) -> Option<u32> {
    match member_of(result, "process_info"@) {
        Some(info) => match member_of(json_of(info), "shell_pid"@) {
            Some(n) => pid_in(json_of(n)),
            None => None,
        },
        None => None,
    }
}

/// The process id that a number stands for.
pub fn as_pid(j: &Json) -> (r: Option<u32>)
    ensures
        r == pid_in(j@),
{
    match j {
        Json::Number(Some(pid)) => Some((*pid % 0x1_0000_0000) as u32),
        _ => None,
    }
}

/// The shell's process id in the output of the command with these arguments.
pub fn read_shell_pid(args: &Vec<String>, stdout: &str) -> (r: Result<Option<u32>, Fault>)
    ensures
        match cli_result_of(texts(args@), stdout@) {
            Ok(t) => r == Ok::<Option<u32>, Fault>(shell_pid_in(json_of(t))),
            Err(f) => r matches Err(g) && g@ == f,
        },
{
    let t = match cli_result(args, stdout) {
        Ok(t) => t,
        Err(f) => {
            return Err(f);
        },
    };
    let info = match json::member(&json::read(t.as_str()), "process_info") {
        Some(info) => info,
        None => {
            return Ok(None);
        },
    };
    match json::member(&json::read(info.as_str()), "shell_pid") {
        Some(n) => Ok(as_pid(&json::read(n.as_str()))),
        None => Ok(None),
    }
}

// ---------------------------------------------------------------------------
// Commands
// ---------------------------------------------------------------------------

impl Herdr {
    /// The session that these environment variables name: the binary, and the
    /// socket.
    pub fn from_env(bin: Option<String>, socket: Option<String>, timeout_ms: u64) -> (r: Result<
        Self,
        String,
    >)
        ensures
            match socket {
                Some(s) => r matches Ok(h) && h.socket@ == s@ && h.timeout_ms == timeout_ms
                    && h.bin@ == (match bin {
                    Some(b) => b@,
                    None => "herdr"@,
                }),
                None => r matches Err(m) && m@ == "HERDR_SOCKET_PATH is not set; run inside herdr"@,
            },
    {
        let bin: String = match bin {
            Some(b) => b,
            None => "herdr".to_owned(),
        };
        match socket {
            Some(socket) => Ok(Herdr { bin, socket, timeout_ms }),
            None => Err("HERDR_SOCKET_PATH is not set; run inside herdr".to_owned()),
        }
    }

    /// Lists the workspaces.
    pub fn workspaces(&self) -> (r: Listing)
        ensures
            texts(r.args@) == seq!["workspace"@, "list"@],
            r.field@ == "workspaces"@,
    {
        let args: Vec<String> = vec!["workspace".to_owned(), "list".to_owned()];
        assert(texts(args@) =~= seq!["workspace"@, "list"@]);
        Listing { args, field: "workspaces" }
    }

    /// Lists the panes.
    pub fn panes(&self) -> (r: Listing)
        ensures
            texts(r.args@) == seq!["pane"@, "list"@],
            r.field@ == "panes"@,
    {
        let args: Vec<String> = vec!["pane".to_owned(), "list".to_owned()];
        assert(texts(args@) =~= seq!["pane"@, "list"@]);
        Listing { args, field: "panes" }
    }

    /// Asks for the process id of a pane's shell; [`read_shell_pid`] takes it
    /// from the output.
    pub fn shell_pid(&self, pane_id: &str) -> (r: Vec<String>)
        ensures
            texts(r@) == seq!["pane"@, "process-info"@, "--pane"@, pane_id@],
    {
        let args: Vec<String> = vec![
            "pane".to_owned(),
            "process-info".to_owned(),
            "--pane".to_owned(),
            pane_id.to_owned(),
        ];
        assert(texts(args@) =~= seq!["pane"@, "process-info"@, "--pane"@, pane_id@]);
        args
    }

    /// Makes the session read its configuration again.
    pub fn reload_config(&self) -> (r: Vec<String>)
        ensures
            texts(r@) == seq!["server"@, "reload-config"@],
    {
        let args: Vec<String> = vec!["server".to_owned(), "reload-config".to_owned()];
        assert(texts(args@) =~= seq!["server"@, "reload-config"@]);
        args
    }
}

/// The arguments that set these tokens.
pub open spec fn token_args(set: Seq<(Seq<char>, Seq<char>)>) -> Seq<Seq<char>>
    decreases set.len(),
{
    if set.len() == 0 {
        seq![]
    } else {
        token_args(set.drop_last()) + seq!["--token"@, set.last().0 + "="@ + set.last().1]
    }
}

/// The arguments that clear these tokens.
pub open spec fn clear_args(clear: Seq<Seq<char>>) -> Seq<Seq<char>>
    decreases clear.len(),
{
    if clear.len() == 0 {
        seq![]
    } else {
        clear_args(clear.drop_last()) + seq!["--clear-token"@, clear.last()]
    }
}

/// The arguments that report tokens; those that are set last for `ttl_ms`.
pub open spec fn report_args(
    workspace_id: Seq<char>,
    source: Seq<char>,
    set: Seq<(Seq<char>, Seq<char>)>,
    clear: Seq<Seq<char>>,
    ttl_ms: u64,
) -> Seq<Seq<char>> {
    seq!["workspace"@, "report-metadata"@, workspace_id, "--source"@, source] + token_args(set)
        + clear_args(clear) + (if set.len() > 0 {
        seq!["--ttl-ms"@, decimal_of(ttl_ms as nat)]
    } else {
        seq![]
    })
}

fn push_two(args: &mut Vec<String>, a: &str, b: String)
    ensures
        texts(final(args)@) == texts(old(args)@) + seq![a@, b@],
{
    args.push(a.to_owned());
    args.push(b);
    assert(texts(args@) =~= texts(old(args)@) + seq![a@, b@]);
}

fn push_tokens(args: &mut Vec<String>, set: &Vec<(String, String)>)
    ensures
        texts(final(args)@) == texts(old(args)@) + token_args(pairs_of(set@)),
{
    let ghost all = pairs_of(set@);
    let ghost start = texts(args@);
    let mut i: usize = 0;
    assert(all.take(0).len() == 0);
    assert(start =~= start + token_args(all.take(0)));
    while i < set.len()
        invariant
            i <= set@.len(),
            all == pairs_of(set@),
            texts(args@) == start + token_args(all.take(i as int)),
        decreases set.len() - i,
    {
        proof {
            assert(all.take(i + 1).drop_last() =~= all.take(i as int));
            assert(all.take(i + 1).last() == (set@[i as int].0@, set@[i as int].1@));
        }
        let mut token: String = set[i].0.clone();
        text::push_text(&mut token, "=");
        text::push_text(&mut token, set[i].1.as_str());
        let ghost t = token@;
        push_two(args, "--token", token);
        assert(start + token_args(all.take(i as int)) + seq!["--token"@, t] =~= start + (token_args(
            all.take(i as int),
        ) + seq!["--token"@, t]));
        i = i + 1;
    }
    assert(all.take(i as int) =~= all);
}

fn push_clears(args: &mut Vec<String>, clear: &Vec<String>)
    ensures
        texts(final(args)@) == texts(old(args)@) + clear_args(texts(clear@)),
{
    let ghost all = texts(clear@);
    let ghost start = texts(args@);
    let mut i: usize = 0;
    assert(all.take(0).len() == 0);
    assert(start =~= start + clear_args(all.take(0)));
    while i < clear.len()
        invariant
            i <= clear@.len(),
            all == texts(clear@),
            texts(args@) == start + clear_args(all.take(i as int)),
        decreases clear.len() - i,
    {
        proof {
            assert(all.take(i + 1).drop_last() =~= all.take(i as int));
            assert(all.take(i + 1).last() == clear@[i as int]@);
        }
        let key = clear[i].clone();
        let ghost t = key@;
        push_two(args, "--clear-token", key);
        assert(start + clear_args(all.take(i as int)) + seq!["--clear-token"@, t] =~= start + (
        clear_args(all.take(i as int)) + seq!["--clear-token"@, t]));
        i = i + 1;
    }
    assert(all.take(i as int) =~= all);
}

impl Herdr {
    /// Sets and clears tokens of a workspace in one report; nothing is run where
    /// there is nothing to report.
    pub fn report_metadata(
        &self,
        workspace_id: &str,
        source: &str,
        set: &Vec<(String, String)>,
        clear: &Vec<String>,
        ttl_ms: u64,
    ) -> (r: Option<Vec<String>>)
        ensures
            r is None <==> set@.len() == 0 && clear@.len() == 0,
            r matches Some(args) ==> texts(args@) == report_args(
                workspace_id@,
                source@,
                pairs_of(set@),
                texts(clear@),
                ttl_ms,
            ),
    {
        if set.len() == 0 && clear.len() == 0 {
            return None;
        }
        let mut args: Vec<String> = vec![
            "workspace".to_owned(),
            "report-metadata".to_owned(),
            workspace_id.to_owned(),
            "--source".to_owned(),
            source.to_owned(),
        ];
        assert(texts(args@) =~= seq![
            "workspace"@,
            "report-metadata"@,
            workspace_id@,
            "--source"@,
            source@,
        ]);
        push_tokens(&mut args, set);
        push_clears(&mut args, clear);
        assert(pairs_of(set@).len() == set@.len());
        if set.len() > 0 {
            push_two(&mut args, "--ttl-ms", number::decimal(ttl_ms));
        }
        assert(texts(args@) =~= report_args(
            workspace_id@,
            source@,
            pairs_of(set@),
            texts(clear@),
            ttl_ms,
        ));
        Some(args)
    }

    /// Opens a pane of a plugin, in this workspace where one is given.
    pub fn open_plugin_pane(
        &self,
        plugin_id: &str,
        entrypoint: &str,
        workspace_id: &Option<String>,
    ) -> (r: Vec<String>)
        ensures
            texts(r@) == seq![
                "plugin"@,
                "pane"@,
                "open"@,
                "--plugin"@,
                plugin_id@,
                "--entrypoint"@,
                entrypoint@,
                "--focus"@,
            ] + (match workspace_id {
                Some(ws) => seq!["--workspace"@, ws@],
                None => seq![],
            }),
    {
        let mut args: Vec<String> = vec![
            "plugin".to_owned(),
            "pane".to_owned(),
            "open".to_owned(),
            "--plugin".to_owned(),
            plugin_id.to_owned(),
            "--entrypoint".to_owned(),
            entrypoint.to_owned(),
            "--focus".to_owned(),
        ];
        assert(texts(args@) =~= seq![
            "plugin"@,
            "pane"@,
            "open"@,
            "--plugin"@,
            plugin_id@,
            "--entrypoint"@,
            entrypoint@,
            "--focus"@,
        ]);
        if let Some(ws) = workspace_id {
            push_two(&mut args, "--workspace", ws.clone());
        }
        args
    }
}

// ---------------------------------------------------------------------------
// The socket
// ---------------------------------------------------------------------------

/// A call without parameters, as one line of JSON.
pub open spec fn call_line(method: Seq<char>) -> Seq<char> {
    "{\"id\":\"herdr-services\",\"method\":"@ + quoted(method) + ",\"params\":{}}\n"@
}

/// A call without parameters, as one line of JSON.
pub fn socket_call(method: &str) -> (r: String)
    ensures
        r@ == call_line(method@),
{
    let mut out: String = concat(
        "{\"id\":\"herdr-services\",\"method\":",
        json::quote(method).as_str(),
    );
    text::push_text(&mut out, ",\"params\":{}}\n");
    out
}

/// The subscription to one type of events, as JSON.
pub open spec fn subscription(event: Seq<char>) -> Seq<char> {
    "{\"type\":"@ + quoted(event) + "}"@
}

/// The subscription to these types of events, as one line of JSON.
pub open spec fn subscribe_line(types: Seq<Seq<char>>) -> Seq<char> {
    "{\"id\":\"herdr-services-events\",\"method\":\"events.subscribe\",\"params\":{\"subscriptions\":["@
        + joined(types.map_values(|t: Seq<char>| subscription(t)), ","@) + "]}}\n"@
}

/// Subscribes to these types of events.
pub fn subscribe(types: &Vec<String>) -> (r: String)
    ensures
        r@ == subscribe_line(texts(types@)),
{
    let ghost wanted = texts(types@).map_values(|t: Seq<char>| subscription(t));
    let mut parts: Vec<String> = Vec::new();
    let mut i: usize = 0;
    while i < types.len()
        invariant
            i <= types@.len(),
            parts@.len() == i,
            wanted == texts(types@).map_values(|t: Seq<char>| subscription(t)),
            forall|j: int| 0 <= j < i ==> (#[trigger] parts@[j])@ == wanted[j],
        decreases types.len() - i,
    {
        let mut one: String = concat("{\"type\":", json::quote(types[i].as_str()).as_str());
        text::push_text(&mut one, "}");
        assert(one@ == wanted[i as int]);
        parts.push(one);
        i = i + 1;
    }
    assert(texts(parts@) =~= wanted);
    let mut out: String = concat(
        "{\"id\":\"herdr-services-events\",\"method\":\"events.subscribe\",\"params\":{\"subscriptions\":[",
        text::join(&parts, ",").as_str(),
    );
    text::push_text(&mut out, "]}}\n");
    out
}

/// Whether a subscription was accepted, or why not.
pub open spec fn accepted(ack: JsonView) -> Result<(), FaultView> {
    match ack {
        JsonView::Malformed(cause) => Err(
            FaultView { text: "subscribe ack is not JSON"@, cause: Some(cause) },
        ),
        _ => match member_of(ack, "error"@) {
            Some(e) => Err(plain("events.subscribe: "@ + e)),
            None => Ok(()),
        },
    }
}

/// Whether a subscription was accepted, where the parts of its acknowledgement
/// are these.
pub fn read_ack(ack: &Json) -> (r: Result<(), Fault>)
    ensures
        match accepted(ack@) {
            Ok(_) => r is Ok,
            Err(f) => r matches Err(g) && g@ == f,
        },
{
    if let Json::Malformed(cause) = ack {
        return Err(
            Fault { text: "subscribe ack is not JSON".to_owned(), cause: Some(cause.clone()) },
        );
    }
    match json::member(ack, "error") {
        Some(e) => Err(Fault { text: concat("events.subscribe: ", e.as_str()), cause: None }),
        None => Ok(()),
    }
}

/// Whether a subscription was accepted.
pub fn subscribed(ack: &str) -> (r: Result<(), Fault>)
    ensures
        match accepted(json_of(trimmed(ack@))) {
            Ok(_) => r is Ok,
            Err(f) => r matches Err(g) && g@ == f,
        },
{
    read_ack(&json::read(text::trim(ack).as_str()))
}

/// The name in a pushed event.
pub open spec fn event_in(frame: JsonView) -> Option<Seq<char>> {
    text_member_of(frame, "event"@)
}

/// The name of a pushed event; other lines (acknowledgements, keep-alives) have
/// none.
pub fn event_name(line: &str) -> (r: Option<String>)
    ensures
        opt_text(r) == event_in(json_of(trimmed(line@))),
{
    json::text_member(&json::read(text::trim(line).as_str()), "event")
}

/// The subscription to the output of one pane that names a URL, as JSON.
pub open spec fn output_subscription(pane_id: Seq<char>) -> Seq<char> {
    "{\"match\":{\"regex\":"@ + quoted(URL_PATTERN@) + "},\"pane_id\":"@ + quoted(pane_id)
        + ",\"source\":\"recent\",\"strip_ansi\":true,\"type\":\"pane.output_matched\"}"@
}

/// The subscription to the output of these panes that names a URL, as one line
/// of JSON.
pub open spec fn output_line(panes: Seq<Seq<char>>) -> Seq<char> {
    "{\"id\":\"herdr-services-urls\",\"method\":\"events.subscribe\",\"params\":{\"subscriptions\":["@
        + joined(panes.map_values(|p: Seq<char>| output_subscription(p)), ","@) + "]}}\n"@
}

/// Subscribes to the output of these panes that names a URL.
pub fn subscribe_output(panes: &Vec<String>) -> (r: String)
    ensures
        r@ == output_line(texts(panes@)),
{
    let ghost wanted = texts(panes@).map_values(|p: Seq<char>| output_subscription(p));
    let mut parts: Vec<String> = Vec::new();
    let mut i: usize = 0;
    while i < panes.len()
        invariant
            i <= panes@.len(),
            parts@.len() == i,
            wanted == texts(panes@).map_values(|p: Seq<char>| output_subscription(p)),
            forall|j: int| 0 <= j < i ==> (#[trigger] parts@[j])@ == wanted[j],
        decreases panes.len() - i,
    {
        let mut one: String = concat("{\"match\":{\"regex\":", json::quote(URL_PATTERN).as_str());
        text::push_text(&mut one, "},\"pane_id\":");
        text::push_text(&mut one, json::quote(panes[i].as_str()).as_str());
        text::push_text(
            &mut one,
            ",\"source\":\"recent\",\"strip_ansi\":true,\"type\":\"pane.output_matched\"}",
        );
        assert(one@ == wanted[i as int]);
        parts.push(one);
        i = i + 1;
    }
    assert(texts(parts@) =~= wanted);
    let mut out: String = concat(
        "{\"id\":\"herdr-services-urls\",\"method\":\"events.subscribe\",\"params\":{\"subscriptions\":[",
        text::join(&parts, ",").as_str(),
    );
    text::push_text(&mut out, "]}}\n");
    out
}

/// The pane and the line in a pushed event that tells of output.
pub open spec fn output_in(frame: JsonView) -> Option<(Seq<char>, Seq<char>)> {
    match member_of(frame, "data"@) {
        Some(data) => match (
            text_member_of(json_of(data), "pane_id"@),
            text_member_of(json_of(data), "matched_line"@),
        ) {
            (Some(pane), Some(line)) => Some((pane, line)),
            _ => None,
        },
        None => None,
    }
}

/// The pane and the line in a pushed event that tells of output.
pub fn matched_output(frame: &str) -> (r: Option<(String, String)>)
    ensures
        match output_in(json_of(trimmed(frame@))) {
            Some((pane, line)) => r matches Some(p) && p.0@ == pane && p.1@ == line,
            None => r is None,
        },
{
    let data = match json::member(&json::read(text::trim(frame).as_str()), "data") {
        Some(t) => json::read(t.as_str()),
        None => {
            return None;
        },
    };
    match (json::text_member(&data, "pane_id"), json::text_member(&data, "matched_line")) {
        (Some(pane), Some(line)) => Some((pane, line)),
        _ => None,
    }
}

// ---------------------------------------------------------------------------
// Files
// ---------------------------------------------------------------------------

/// The plugin's directories. What belongs to one session lies in a directory of
/// its own, named by the session's key; the control socket lies in a short
/// runtime directory, since the paths of sockets are limited.
#[derive(Debug, PartialEq, Eq)]
pub struct PluginDirs {
    /// What all sessions share.
    pub root: String,
    /// What belongs to this session.
    pub state: String,
    pub config: String,
    /// The session's key, which names the control socket.
    pub key: String,
}

/// The hash of `bytes` by which sessions are told apart (FNV-1a, 64 bits).
pub open spec fn fnv_of(bytes: Seq<u8>) -> u64
    decreases bytes.len(),
{
    if bytes.len() == 0 {
        0xcbf2_9ce4_8422_2325
    } else {
        (((fnv_of(bytes.drop_last()) ^ (bytes.last() as u64)) as nat * 0x0100_0000_01b3)
            % 0x1_0000_0000_0000_0000) as u64
    }
}

/// The key of the session whose socket has this path.
pub open spec fn key_of(socket: Seq<u8>) -> Seq<char> {
    hex_of(fnv_of(socket) as nat, 16)
}

/// The key of the session whose socket has this path.
pub fn session_key(socket: &[u8]) -> (r: String)
    ensures
        r@ == key_of(socket@),
        r@.len() == 16,
{
    let mut hash: u64 = 0xcbf2_9ce4_8422_2325;
    let mut i: usize = 0;
    assert(socket@.take(0).len() == 0);
    while i < socket.len()
        invariant
            i <= socket@.len(),
            hash == fnv_of(socket@.take(i as int)),
        decreases socket.len() - i,
    {
        proof {
            assert(socket@.take(i + 1).drop_last() =~= socket@.take(i as int));
            assert(socket@.take(i + 1).last() == socket@[i as int]);
        }
        hash = hash ^ (socket[i] as u64);
        hash = hash.wrapping_mul(0x0100_0000_01b3);
        i = i + 1;
    }
    assert(socket@.take(i as int) =~= socket@);
    number::hex(hash, 16)
}

/// The directory of the session with this key.
pub open spec fn session_dir(root: Seq<char>, key: Seq<char>) -> Seq<char> {
    under(under(root, "sessions"@), key)
}

impl PluginDirs {
    /// The directories that these environment variables name: the state's, and
    /// the configuration's.
    pub fn from_env(root: Option<String>, config: Option<String>, socket: &[u8]) -> (r: Result<
        Self,
        String,
    >)
        ensures
            match root {
                Some(root) => r matches Ok(d) && d.root@ == root@ && d.key@ == key_of(socket@)
                    && d.state@ == session_dir(root@, key_of(socket@)) && d.config@ == (
                match config {
                    Some(c) => c@,
                    None => root@,
                }),
                None => r matches Err(m) && m@
                    == "HERDR_PLUGIN_STATE_DIR is not set; run as a herdr plugin"@,
            },
    {
        let root = match root {
            Some(root) => root,
            None => {
                return Err(
                    "HERDR_PLUGIN_STATE_DIR is not set; run as a herdr plugin".to_owned(),
                );
            },
        };
        let config = match config {
            Some(c) => c,
            None => root.clone(),
        };
        let key = session_key(socket);
        let state = path::join(path::join(root.as_str(), "sessions").as_str(), key.as_str());
        Ok(PluginDirs { root, state, config, key })
    }

    /// Where the directories of all sessions lie.
    pub fn sessions_dir(&self) -> (r: String)
        ensures
            r@ == under(self.root@, "sessions"@),
    {
        path::join(self.root.as_str(), "sessions")
    }

    /// Where the state is kept.
    pub fn state_file(&self) -> (r: String)
        ensures
            r@ == under(self.state@, "state.json"@),
    {
        path::join(self.state.as_str(), "state.json")
    }

    /// Where the daemon's process id is kept.
    pub fn pid_file(&self) -> (r: String)
        ensures
            r@ == under(self.state@, "daemon.pid"@),
    {
        path::join(self.state.as_str(), "daemon.pid")
    }

    /// The control socket in this runtime directory.
    pub fn control_socket(&self, runtime: &str) -> (r: String)
        ensures
            r@ == under(runtime@, self.key@ + ".sock"@),
    {
        path::join(runtime, concat(self.key.as_str(), ".sock").as_str())
    }

    /// Where the path of the session's socket is kept.
    pub fn socket_marker(&self) -> (r: String)
        ensures
            r@ == under(self.state@, "herdr.sock.path"@),
    {
        path::join(self.state.as_str(), "herdr.sock.path")
    }

    /// Where the daemon writes what it logs.
    pub fn log_file(&self) -> (r: String)
        ensures
            r@ == under(self.state@, "daemon.log"@),
    {
        path::join(self.state.as_str(), "daemon.log")
    }

    /// Where the configuration lies.
    pub fn config_file(&self) -> (r: String)
        ensures
            r@ == under(self.config@, "config.toml"@),
    {
        path::join(self.config.as_str(), "config.toml")
    }
}

/// The runtime directory: in the user's own where one is set, else named by the
/// user among temporary files.
pub fn runtime_dir(xdg_runtime: &Option<String>, temp: &str, uid: u32) -> (r: String)
    ensures
        r@ == (match xdg_runtime {
            Some(d) => under(d@, "herdr-services"@),
            None => under(temp@, "herdr-services-"@ + decimal_of(uid as nat)),
        }),
{
    match xdg_runtime {
        Some(d) => path::join(d.as_str(), "herdr-services"),
        None => path::join(
            temp,
            concat("herdr-services-", number::decimal(uid as u64).as_str()).as_str(),
        ),
    }
}

/// The session's own configuration file: as set, else under the user's
/// configuration directory, else under the home directory.
pub fn herdr_config_path(
    config: Option<String>,
    xdg_config: &Option<String>,
    home: &Option<String>,
) -> (r: Result<String, String>)
    ensures
        match (config, *xdg_config, *home) {
            (Some(p), _, _) => r matches Ok(q) && q@ == p@,
            (None, Some(d), _) => r matches Ok(q) && q@ == under(
                under(d@, "herdr"@),
                "config.toml"@,
            ),
            (None, None, Some(h)) => r matches Ok(q) && q@ == under(
                under(under(h@, ".config"@), "herdr"@),
                "config.toml"@,
            ),
            (None, None, None) => r matches Err(m) && m@ == "HOME is not set"@,
        },
{
    if let Some(p) = config {
        return Ok(p);
    }
    if let Some(d) = xdg_config {
        return Ok(path::join(path::join(d.as_str(), "herdr").as_str(), "config.toml"));
    }
    match home {
        Some(h) => Ok(
            path::join(
                path::join(path::join(h.as_str(), ".config").as_str(), "herdr").as_str(),
                "config.toml",
            ),
        ),
        None => Err("HOME is not set".to_owned()),
    }
}

proof fn lemma_hex_is_relative(n: nat, width: nat)
    requires
        width > 0,
    ensures
        hex_of(n, width).len() == width,
        !is_absolute(hex_of(n, width)),
    decreases width,
{
    if width > 1 {
        lemma_hex_is_relative(n / 16, (width - 1) as nat);
        assert(hex_of(n, width)[0] == hex_of(n / 16, (width - 1) as nat)[0]);
    } else {
        assert(hex_of(n / 16, 0) =~= Seq::<char>::empty());
    }
}

/// Two sessions with different keys keep their state in different directories.
pub proof fn sessions_keep_apart(root: Seq<char>, a: Seq<u8>, b: Seq<u8>)
    requires
        key_of(a) != key_of(b),
    ensures
        session_dir(root, key_of(a)) != session_dir(root, key_of(b)),
{
    lemma_hex_is_relative(fnv_of(a) as nat, 16);
    lemma_hex_is_relative(fnv_of(b) as nat, 16);
    let x = session_dir(root, key_of(a));
    let y = session_dir(root, key_of(b));
    assert(x.skip(x.len() - 16) =~= key_of(a));
    assert(y.skip(y.len() - 16) =~= key_of(b));
}

/// What an answer holds is decided by its members: an error is told with the
/// call it came to, before any result; without either there is no result.
pub proof fn an_error_goes_before_a_result(
    m: Seq<(Seq<char>, Seq<char>)>,
    not_json: Seq<char>,
    call: Seq<char>,
    k: int,
)
    ensures
        0 <= k < m.len() && m[k].0 == "error"@ && (forall|j: int|
            0 <= j < k ==> (#[trigger] m[j]).0 != "error"@) ==> result_in(
            JsonView::Object(m),
            not_json,
            call,
        ) == Err::<Seq<char>, _>(
            FaultView { text: "herdr "@ + call + ": "@ + m[k].1, cause: None },
        ),
        0 <= k < m.len() && m[k].0 == "result"@ && (forall|j: int|
            0 <= j < m.len() ==> (#[trigger] m[j]).0 != "error"@ && (j < k ==> m[j].0
                != "result"@)) ==> result_in(JsonView::Object(m), not_json, call) == Ok::<
            _,
            FaultView,
        >(m[k].1),
        (forall|j: int|
            0 <= j < m.len() ==> (#[trigger] m[j]).0 != "error"@ && m[j].0 != "result"@)
            ==> result_in(JsonView::Object(m), not_json, call) is Err,
{
    json::a_member_is_found_by_its_key(m, "error"@, k, call);
    json::a_member_is_found_by_its_key(m, "result"@, k, call);
}

/// A command that printed nothing but white space succeeded with no result.
pub proof fn silence_is_success(args: Seq<Seq<char>>, stdout: Seq<char>)
    requires
        forall|i: int| 0 <= i < stdout.len() ==> text::is_space(#[trigger] stdout[i]),
    ensures
        cli_result_of(args, stdout) == Ok::<_, FaultView>("null"@),
{
    text::lemma_run(stdout, text::spaces());
    assert forall|i: int| 0 <= i < stdout.len() implies text::spaces()(#[trigger] stdout[i]) by {}
    text::lemma_run_unique(stdout, text::spaces(), stdout.len() as int);
    let t = text::trim_start_of(stdout);
    assert(t.len() == 0);
    text::lemma_tail_run(t, text::spaces());
    assert(trimmed(stdout).len() == 0);
}

proof fn lemma_token_args(set: Seq<(Seq<char>, Seq<char>)>, k: int)
    requires
        0 <= k < set.len(),
    ensures
        token_args(set).len() == 2 * set.len(),
        token_args(set)[2 * k] == "--token"@,
        token_args(set)[2 * k + 1] == set[k].0 + "="@ + set[k].1,
    decreases set.len(),
{
    let front = set.drop_last();
    let out = token_args(front);
    if front.len() > 0 {
        if k < front.len() {
            lemma_token_args(front, k);
        } else {
            lemma_token_args(front, 0);
        }
    }
    assert(out.len() == 2 * front.len());
    assert(token_args(set) == out + seq!["--token"@, set.last().0 + "="@ + set.last().1]);
}

proof fn lemma_clear_args(clear: Seq<Seq<char>>, k: int)
    requires
        0 <= k < clear.len(),
    ensures
        clear_args(clear).len() == 2 * clear.len(),
        clear_args(clear)[2 * k] == "--clear-token"@,
        clear_args(clear)[2 * k + 1] == clear[k],
    decreases clear.len(),
{
    let front = clear.drop_last();
    let out = clear_args(front);
    if front.len() > 0 {
        if k < front.len() {
            lemma_clear_args(front, k);
        } else {
            lemma_clear_args(front, 0);
        }
    }
    assert(out.len() == 2 * front.len());
    assert(clear_args(clear) == out + seq!["--clear-token"@, clear.last()]);
}

/// A report names its workspace and source, every token to set with its value,
/// every token to clear, and how long the tokens live where any is set.
pub proof fn a_report_names_all_its_tokens(
    ws: Seq<char>,
    source: Seq<char>,
    set: Seq<(Seq<char>, Seq<char>)>,
    clear: Seq<Seq<char>>,
    ttl_ms: u64,
    i: int,
    j: int,
)
    ensures
        ({
            let args = report_args(ws, source, set, clear, ttl_ms);
            &&& args.take(5) == seq![
                "workspace"@,
                "report-metadata"@,
                ws,
                "--source"@,
                source,
            ]
            &&& 0 <= i < set.len() ==> args[5 + 2 * i] == "--token"@ && args[6 + 2 * i]
                == set[i].0 + "="@ + set[i].1
            &&& 0 <= j < clear.len() ==> args[5 + 2 * set.len() + 2 * j] == "--clear-token"@
                && args[6 + 2 * set.len() + 2 * j] == clear[j]
            &&& set.len() > 0 ==> args.len() == 7 + 2 * set.len() + 2 * clear.len() && args[
                args.len() - 2
            ] == "--ttl-ms"@ && args.last() == decimal_of(ttl_ms as nat)
            &&& set.len() == 0 ==> args.len() == 5 + 2 * clear.len()
        }),
{
    let args = report_args(ws, source, set, clear, ttl_ms);
    let a = token_args(set);
    let b = clear_args(clear);
    if set.len() > 0 {
        lemma_token_args(set, 0);
    }
    if clear.len() > 0 {
        lemma_clear_args(clear, 0);
    }
    assert(a.len() == 2 * set.len());
    assert(b.len() == 2 * clear.len());
    assert(args.take(5) =~= seq!["workspace"@, "report-metadata"@, ws, "--source"@, source]);
    if 0 <= i < set.len() {
        lemma_token_args(set, i);
        assert(args[5 + 2 * i] == a[2 * i]);
        assert(args[6 + 2 * i] == a[2 * i + 1]);
    }
    if 0 <= j < clear.len() {
        lemma_clear_args(clear, j);
        assert(args[5 + 2 * set.len() + 2 * j] == b[2 * j]);
        assert(args[6 + 2 * set.len() + 2 * j] == b[2 * j + 1]);
    }
}

/// A process id is read from its number.
pub proof fn a_shell_is_known_by_its_number(n: u64)
    ensures
        n <= u32::MAX ==> pid_in(JsonView::Number(Some(n))) == Some(n as u32),
        pid_in(JsonView::Null) is None,
{
}

proof fn lemma_joined_contains(pieces: Seq<Seq<char>>, sep: Seq<char>, k: int)
    requires
        0 <= k < pieces.len(),
    ensures
        text::contains_text(joined(pieces, sep), pieces[k]),
    decreases pieces.len(),
{
    if pieces.len() == 1 {
        text::lemma_contains_middle(pieces[0], seq![], pieces[0], seq![]);
    } else {
        let front = pieces.drop_last();
        let head = joined(front, sep);
        let last = pieces[pieces.len() - 1];
        if k < front.len() {
            lemma_joined_contains(front, sep, k);
            text::lemma_contains_add(head, sep, pieces[k]);
            text::lemma_contains_add(head + sep, last, pieces[k]);
        } else {
            text::lemma_contains_middle(head + sep + last, head + sep, last, seq![]);
        }
    }
}

/// A subscription names every type of events that is asked for, and one to
/// output every pane.
pub proof fn a_subscription_names_all_it_asks_for(names: Seq<Seq<char>>, k: int)
    requires
        0 <= k < names.len(),
    ensures
        text::contains_text(subscribe_line(names), quoted(names[k])),
        text::contains_text(output_line(names), quoted(names[k])),
{
    let types = names.map_values(|t: Seq<char>| subscription(t));
    let head = "{\"id\":\"herdr-services-events\",\"method\":\"events.subscribe\",\"params\":{\"subscriptions\":["@;
    lemma_joined_contains(types, ","@, k);
    text::a_text_contains_its_parts("{\"type\":"@, quoted(names[k]), "}"@);
    text::lemma_contains_within(joined(types, ","@), types[k], quoted(names[k]));
    text::lemma_contains_add(head, joined(types, ","@), quoted(names[k]));
    text::lemma_contains_add(head + joined(types, ","@), "]}}\n"@, quoted(names[k]));
    let panes = names.map_values(|p: Seq<char>| output_subscription(p));
    let start = "{\"id\":\"herdr-services-urls\",\"method\":\"events.subscribe\",\"params\":{\"subscriptions\":["@;
    lemma_joined_contains(panes, ","@, k);
    text::a_text_contains_its_parts(
        "{\"match\":{\"regex\":"@ + quoted(URL_PATTERN@) + "},\"pane_id\":"@,
        quoted(names[k]),
        ",\"source\":\"recent\",\"strip_ansi\":true,\"type\":\"pane.output_matched\"}"@,
    );
    text::lemma_contains_within(joined(panes, ","@), panes[k], quoted(names[k]));
    text::lemma_contains_add(start, joined(panes, ","@), quoted(names[k]));
    text::lemma_contains_add(start + joined(panes, ","@), "]}}\n"@, quoted(names[k]));
}

/// A subscription is accepted unless the answer holds an error or is no JSON.
pub proof fn a_subscription_is_accepted_unless_refused(
    m: Seq<(Seq<char>, Seq<char>)>,
    cause: Seq<char>,
    k: int,
)
    ensures
        accepted(JsonView::Malformed(cause)) is Err,
        0 <= k < m.len() && m[k].0 == "error"@ ==> accepted(JsonView::Object(m)) is Err,
        (forall|j: int| 0 <= j < m.len() ==> (#[trigger] m[j]).0 != "error"@) ==> accepted(
            JsonView::Object(m),
        ) is Ok,
{
    json::a_member_is_found_by_its_key(m, "error"@, k, cause);
    if 0 <= k < m.len() && m[k].0 == "error"@ {
        let f = crate::assoc::has_key::<Seq<char>, Seq<char>>("error"@);
        crate::seqs::lemma_first_where(m, f);
        assert(f(m[k]));
    }
}

/// An event is known by its member `event`, and one that tells of output by the
/// pane and the line in its data.
pub proof fn events_are_read_from_their_members(
    frame: JsonView,
    data: Seq<char>,
    pane: Seq<char>,
    line: Seq<char>,
)
    ensures
        event_in(frame) == text_member_of(frame, "event"@),
        member_of(frame, "data"@) == Some(data) && text_member_of(json_of(data), "pane_id"@)
            == Some(pane) && text_member_of(json_of(data), "matched_line"@) == Some(line)
            ==> output_in(frame) == Some((pane, line)),
        member_of(frame, "data"@) is None ==> output_in(frame) is None,
        output_in(frame) matches Some(o) ==> (member_of(frame, "data"@) matches Some(d) && Some(o.0)
            == text_member_of(json_of(d), "pane_id"@) && Some(o.1) == text_member_of(
            json_of(d),
            "matched_line"@,
        )),
{
}

/// The shell of a pane is the number under `shell_pid` in its process
/// information.
pub proof fn a_shell_is_read_from_its_members(result: JsonView, info: Seq<char>, n: Seq<char>)
    ensures
        member_of(result, "process_info"@) == Some(info) && member_of(json_of(info), "shell_pid"@)
            == Some(n) ==> shell_pid_in(result) == pid_in(json_of(n)),
        member_of(result, "process_info"@) is None ==> shell_pid_in(result) is None,
{
}

/// A session's state lies in its own directory among the sessions.
pub proof fn a_session_lies_among_the_sessions(root: Seq<char>, key: Seq<char>)
    requires
        root.len() > 0,
        root.last() != '/',
        key.len() > 0,
        key[0] != '/',
    ensures
        session_dir(root, key) == root + "/sessions/"@ + key,
{
    reveal_strlit("sessions");
    reveal_strlit("/sessions/");
    assert(!is_absolute("sessions"@));
    let a = under(root, "sessions"@);
    assert(a =~= root + seq!['/'] + "sessions"@);
    assert(session_dir(root, key) =~= root + "/sessions/"@ + key);
}

} // verus!
