//! Container ports from `docker ps`. Compose labels carry the project's working
//! directory, by which a container is attributed.

use vstd::prelude::*;

use crate::json;
use crate::json::{json_of, member_of, text_in, text_member_of, Json, JsonView};
use crate::number;
use crate::number::port_of;
use crate::process;
use crate::process::{utf8_fault, Fault, FaultView, Output};
use crate::text;
use crate::text::{
    lines_of, opt_text, rsplit_once_of, split_at_text, split_of, split_once_of, texts, trimmed,
    utf8_lossy,
};

verus! {

/// Compose label of the project's directory.
pub const LABEL_WORKING_DIR: &'static str = "com.docker.compose.project.working_dir";

/// Compose label of the service name.
pub const LABEL_SERVICE: &'static str = "com.docker.compose.service";

/// Compose label of the project name.
pub const LABEL_PROJECT: &'static str = "com.docker.compose.project";

/// One TCP port of a container, published on the host.
#[derive(Debug, PartialEq, Eq)]
pub struct PublishedPort {
    pub host_addr: String,
    pub host_port: u16,
    pub container_port: u16,
}

/// A [`PublishedPort`] with its text as characters.
#[verifier::ext_equal]
pub struct PublishedView {
    pub host_addr: Seq<char>,
    pub host_port: u16,
    pub container_port: u16,
}

impl View for PublishedPort {
    type V = PublishedView;

    open spec fn view(&self) -> PublishedView {
        PublishedView {
            host_addr: self.host_addr@,
            host_port: self.host_port,
            container_port: self.container_port,
        }
    }
}

/// The ports of a vector, with their texts as characters.
pub open spec fn ports_view(v: Seq<PublishedPort>) -> Seq<PublishedView> {
    v.map_values(|p: PublishedPort| p@)
}

/// A running container that publishes a TCP port.
#[derive(Debug, PartialEq, Eq)]
pub struct Container {
    pub id: String,
    pub name: String,
    /// Compose service name where there is one, else the container name.
    pub service: String,
    pub project: Option<String>,
    pub working_dir: Option<String>,
    pub image: String,
    pub ports: Vec<PublishedPort>,
}

/// A [`Container`] with its texts as characters.
#[verifier::ext_equal]
pub struct ContainerView {
    pub id: Seq<char>,
    pub name: Seq<char>,
    pub service: Seq<char>,
    pub project: Option<Seq<char>>,
    pub working_dir: Option<Seq<char>>,
    pub image: Seq<char>,
    pub ports: Seq<PublishedView>,
}

impl View for Container {
    type V = ContainerView;

    open spec fn view(&self) -> ContainerView {
        ContainerView {
            id: self.id@,
            name: self.name@,
            service: self.service@,
            project: opt_text(self.project),
            working_dir: opt_text(self.working_dir),
            image: self.image@,
            ports: ports_view(self.ports@),
        }
    }
}

/// The containers of a vector, with their texts as characters.
pub open spec fn containers_view(v: Seq<Container>) -> Seq<ContainerView> {
    v.map_values(|c: Container| c@)
}

/// The columns of a `docker ps` row that matter here.
#[derive(Debug, PartialEq, Eq)]
pub struct PsRow {
    pub id: String,
    pub names: String,
    pub image: String,
    pub labels: String,
    pub ports: String,
}

/// A [`PsRow`] with its texts as characters.
#[verifier::ext_equal]
pub struct PsRowView {
    pub id: Seq<char>,
    pub names: Seq<char>,
    pub image: Seq<char>,
    pub labels: Seq<char>,
    pub ports: Seq<char>,
}

impl View for PsRow {
    type V = PsRowView;

    open spec fn view(&self) -> PsRowView {
        PsRowView {
            id: self.id@,
            names: self.names@,
            image: self.image@,
            labels: self.labels@,
            ports: self.ports@,
        }
    }
}

// ---------------------------------------------------------------------------
// Ports and labels
// ---------------------------------------------------------------------------

/// The address of a host binding; one on all addresses is `*`.
pub open spec fn host_addr_of(addr: Seq<char>) -> Seq<char> {
    if addr == "0.0.0.0"@ || addr == "[::]"@ {
        "*"@
    } else {
        addr
    }
}

/// The published port that `addr:port->port/tcp` stands for.
pub open spec fn published_in(part: Seq<char>) -> Option<PublishedView> {
    match split_at_text(trimmed(part), "->"@) {
        Some((host, target)) => if !"/tcp"@.is_suffix_of(target) {
            None
        } else {
            match (
                rsplit_once_of(host, ':'),
                port_of(target.take(target.len() - "/tcp"@.len())),
            ) {
                (Some((addr, port)), Some(container_port)) => match port_of(port) {
                    Some(host_port) => Some(
                        PublishedView {
                            host_addr: host_addr_of(addr),
                            host_port,
                            container_port,
                        },
                    ),
                    None => None,
                },
                _ => None,
            }
        },
        None => None,
    }
}

/// Some binding has this host port.
pub open spec fn has_host_port(out: Seq<PublishedView>, port: u16) -> bool {
    exists|i: int| 0 <= i < out.len() && (#[trigger] out[i]).host_port == port
}

/// The published ports of these parts; of several bindings of one host port the
/// first counts.
pub open spec fn published(parts: Seq<Seq<char>>) -> Seq<PublishedView>
    decreases parts.len(),
{
    if parts.len() == 0 {
        seq![]
    } else {
        let out = published(parts.drop_last());
        match published_in(parts.last()) {
            Some(p) => if has_host_port(out, p.host_port) {
                out
            } else {
                out.push(p)
            },
            None => out,
        }
    }
}

fn published_port(part: &str) -> (r: Option<PublishedPort>)
    ensures
        r is Some <==> published_in(part@) is Some,
        r matches Some(p) ==> published_in(part@) == Some(p@),
{
    let part = text::trim(part);
    match text::split_text(part.as_str(), "->") {
        Some((host, target)) => match text::strip_suffix(target.as_str(), "/tcp") {
            Some(inner) => match (
                text::rsplit_once(host.as_str(), ':'),
                number::parse_port(inner.as_str()),
            ) {
                (Some((addr, port)), Some(container_port)) => match number::parse_port(
                    port.as_str(),
                ) {
                    Some(host_port) => {
                        let host_addr = if text::same(addr.as_str(), "0.0.0.0") || text::same(
                            addr.as_str(),
                            "[::]",
                        ) {
                            "*".to_owned()
                        } else {
                            addr
                        };
                        Some(PublishedPort { host_addr, host_port, container_port })
                    },
                    None => None,
                },
                _ => None,
            },
            None => None,
        },
        None => None,
    }
}

/// Reads the port column, such as
/// `0.0.0.0:32770->4000/tcp, [::]:32770->4000/tcp, 8008/tcp`: one entry for each
/// host port.
pub fn parse_ports(s: &str) -> (r: Vec<PublishedPort>)
    ensures
        ports_view(r@) == published(split_of(s@, ',')),
{
    let parts = text::split(s, ',');
    let ghost all = texts(parts@);
    let mut out: Vec<PublishedPort> = Vec::new();
    let mut i: usize = 0;
    assert(ports_view(out@) =~= seq![]);
    while i < parts.len()
        invariant
            i <= parts@.len(),
            all == texts(parts@),
            ports_view(out@) == published(all.take(i as int)),
        decreases parts.len() - i,
    {
        proof {
            assert(all.take(i + 1).drop_last() =~= all.take(i as int));
            assert(all.take(i + 1).last() == all[i as int]);
        }
        if let Some(p) = published_port(parts[i].as_str()) {
            let ghost before = ports_view(out@);
            let mut j: usize = 0;
            while j < out.len() && out[j].host_port != p.host_port
                invariant
                    j <= out@.len(),
                    forall|k: int| 0 <= k < j ==> (#[trigger] out@[k]).host_port != p.host_port,
                decreases out.len() - j,
            {
                j = j + 1;
            }
            if j >= out.len() {
                proof {
                    assert forall|k: int| 0 <= k < before.len() implies (
                    #[trigger] before[k]).host_port != p@.host_port by {
                        assert(out@[k].host_port != p.host_port);
                    }
                }
                let ghost v = p@;
                out.push(p);
                assert(ports_view(out@) =~= before.push(v));
            } else {
                assert(before[j as int].host_port == p@.host_port);
            }
        }
        i = i + 1;
    }
    assert(all.take(i as int) =~= all);
    out
}

/// The value of the last `key=value` part with this key.
pub open spec fn label_in(parts: Seq<Seq<char>>, key: Seq<char>) -> Option<Seq<char>>
    decreases parts.len(),
{
    if parts.len() == 0 {
        None
    } else {
        match split_once_of(parts.last(), '=') {
            Some((k, v)) => if k == key {
                Some(v)
            } else {
                label_in(parts.drop_last(), key)
            },
            None => label_in(parts.drop_last(), key),
        }
    }
}

/// The label `key` of a label column.
fn label(s: &str, key: &str) -> (r: Option<String>)
    ensures
        opt_text(r) == label_in(split_of(s@, ','), key@),
{
    let parts = text::split(s, ',');
    let ghost all = texts(parts@);
    let mut i: usize = parts.len();
    assert(all.take(i as int) =~= all);
    while i > 0
        invariant
            i <= parts@.len(),
            all == texts(parts@),
            label_in(all, key@) == label_in(all.take(i as int), key@),
            all == split_of(s@, ','),
        decreases i,
    {
        proof {
            assert(all.take(i as int).drop_last() =~= all.take(i - 1));
            assert(all.take(i as int).last() == all[i - 1]);
        }
        if let Some((k, v)) = text::split_once(parts[i - 1].as_str(), '=') {
            if text::same(k.as_str(), key) {
                return Some(v);
            }
        }
        i = i - 1;
    }
    None
}

// ---------------------------------------------------------------------------
// Rows
// ---------------------------------------------------------------------------

/// The container of a row, where it publishes a TCP port.
pub open spec fn container_in(row: PsRowView) -> Option<ContainerView> {
    let ports = published(split_of(row.ports, ','));
    if ports.len() == 0 {
        None
    } else {
        let labels = split_of(row.labels, ',');
        let name = split_of(row.names, ',')[0];
        Some(
            ContainerView {
                id: row.id,
                name,
                service: match label_in(labels, LABEL_SERVICE@) {
                    Some(s) => s,
                    None => name,
                },
                project: label_in(labels, LABEL_PROJECT@),
                working_dir: label_in(labels, LABEL_WORKING_DIR@),
                image: row.image,
                ports,
            },
        )
    }
}

/// The container of a row, unless it publishes no TCP port.
pub fn container_of(row: PsRow) -> (r: Option<Container>)
    ensures
        r is Some <==> container_in(row@) is Some,
        r matches Some(c) ==> container_in(row@) == Some(c@),
{
    let ports = parse_ports(row.ports.as_str());
    assert(ports_view(ports@).len() == ports@.len());
    if ports.len() == 0 {
        return None;
    }
    let names = text::split(row.names.as_str(), ',');
    assert(names@.len() == texts(names@).len());
    let name = names[0].clone();
    assert(name@ == texts(names@)[0]);
    let service = match label(row.labels.as_str(), LABEL_SERVICE) {
        Some(s) => s,
        None => name.clone(),
    };
    let project = label(row.labels.as_str(), LABEL_PROJECT);
    let working_dir = label(row.labels.as_str(), LABEL_WORKING_DIR);
    Some(Container { id: row.id, name, service, project, working_dir, image: row.image, ports })
}

/// A member that is a text where it is there; empty where it is not.
pub open spec fn optional(j: JsonView, key: Seq<char>) -> Option<Seq<char>> {
    match member_of(j, key) {
        Some(t) => text_in(json_of(t)),
        None => Some(seq![]),
    }
}

/// The row that a line of `docker ps --format '{{json .}}'` holds.
pub open spec fn row_in(line: Seq<char>) -> Option<PsRowView> {
    let j = json_of(trimmed(line));
    match (
        text_member_of(j, "ID"@),
        text_member_of(j, "Names"@),
        optional(j, "Image"@),
        optional(j, "Labels"@),
        optional(j, "Ports"@),
    ) {
        (Some(id), Some(names), Some(image), Some(labels), Some(ports)) => Some(
            PsRowView { id, names, image, labels, ports },
        ),
        _ => None,
    }
}

/// The containers of these lines.
pub open spec fn containers_in(lines: Seq<Seq<char>>) -> Seq<ContainerView>
    decreases lines.len(),
{
    if lines.len() == 0 {
        seq![]
    } else {
        let out = containers_in(lines.drop_last());
        match row_in(lines.last()) {
            Some(row) => match container_in(row) {
                Some(c) => out.push(c),
                None => out,
            },
            None => out,
        }
    }
}

fn optional_text(j: &Json, key: &str) -> (r: Option<String>)
    ensures
        opt_text(r) == optional(j@, key@),
{
    match json::member(j, key) {
        Some(t) => json::as_text(json::read(t.as_str())),
        None => Some(String::new()),
    }
}

/// The row that a line of `docker ps` holds, where it holds one.
pub fn row(line: &str) -> (r: Option<PsRow>)
    ensures
        r is Some <==> row_in(line@) is Some,
        r matches Some(row) ==> row_in(line@) == Some(row@),
{
    let j = json::read(text::trim(line).as_str());
    match (
        json::text_member(&j, "ID"),
        json::text_member(&j, "Names"),
        optional_text(&j, "Image"),
        optional_text(&j, "Labels"),
        optional_text(&j, "Ports"),
    ) {
        (Some(id), Some(names), Some(image), Some(labels), Some(ports)) => Some(
            PsRow { id, names, image, labels, ports },
        ),
        _ => None,
    }
}

/// Reads `docker ps --format '{{json .}}'` output; lines of any other form and
/// containers without a published TCP port are dropped.
pub fn parse_ps(s: &str) -> (r: Vec<Container>)
    ensures
        containers_view(r@) == containers_in(lines_of(s@)),
{
    let lines = text::lines(s);
    let ghost all = texts(lines@);
    let mut out: Vec<Container> = Vec::new();
    let mut i: usize = 0;
    assert(containers_view(out@) =~= seq![]);
    while i < lines.len()
        invariant
            i <= lines@.len(),
            all == texts(lines@),
            containers_view(out@) == containers_in(all.take(i as int)),
        decreases lines.len() - i,
    {
        proof {
            assert(all.take(i + 1).drop_last() =~= all.take(i as int));
            assert(all.take(i + 1).last() == all[i as int]);
        }
        if let Some(row) = row(lines[i].as_str()) {
            if let Some(c) = container_of(row) {
                let ghost before = containers_view(out@);
                let ghost v = c@;
                out.push(c);
                assert(containers_view(out@) =~= before.push(v));
            }
        }
        i = i + 1;
    }
    assert(all.take(i as int) =~= all);
    out
}

/// The arguments of `docker` that list the running containers.
pub fn ps_args() -> (r: Vec<String>)
    ensures
        texts(r@) == seq!["ps"@, "--no-trunc"@, "--format"@, "{{json .}}"@],
{
    let r: Vec<String> = vec![
        "ps".to_owned(),
        "--no-trunc".to_owned(),
        "--format".to_owned(),
        "{{json .}}".to_owned(),
    ];
    assert(texts(r@) =~= seq!["ps"@, "--no-trunc"@, "--format"@, "{{json .}}"@]);
    r
}

/// The message for a `docker ps` that failed: the first line of what it
/// complained of.
pub open spec fn complaint(stderr: Seq<char>) -> Seq<char> {
    let lines = lines_of(trimmed(stderr));
    "docker ps: "@ + if lines.len() > 0 {
        lines[0]
    } else {
        "failed"@
    }
}

/// The message for a `docker ps` that failed.
pub fn failure(stderr: &str) -> (r: String)
    ensures
        r@ == complaint(stderr@),
{
    let lines = text::lines(text::trim(stderr).as_str());
    assert(lines@.len() == texts(lines@).len());
    let mut out: String = "docker ps: ".to_owned();
    if lines.len() > 0 {
        assert(lines@[0]@ == texts(lines@)[0]);
        text::push_text(&mut out, lines[0].as_str());
    } else {
        text::push_text(&mut out, "failed");
    }
    out
}

/// The containers in what `docker ps` left behind, or why there are none.
pub fn containers(output: Output) -> (r: Result<Vec<Container>, Fault>)
    ensures
        if !output.success {
            r matches Err(f) && f@ == (FaultView {
                text: complaint(utf8_lossy(output.stderr@)),
                cause: None,
            })
        } else if vstd::utf8::valid_utf8(output.stdout@) {
            r matches Ok(c) && containers_view(c@) == containers_in(
                lines_of(vstd::utf8::decode_utf8(output.stdout@)),
            )
        } else {
            r matches Err(f) && f@ == (FaultView {
                text: "docker ps: stdout is not UTF-8"@,
                cause: Some(utf8_fault(output.stdout@)),
            })
        },
{
    if !output.success {
        let stderr = text::from_utf8_lossy(output.stderr.as_slice());
        return Err(Fault { text: failure(stderr.as_str()), cause: None });
    }
    match process::from_utf8(output.stdout) {
        Ok(s) => Ok(parse_ps(s.as_str())),
        Err(cause) => Err(
            Fault { text: "docker ps: stdout is not UTF-8".to_owned(), cause: Some(cause) },
        ),
    }
}

/// A host port is published once.
pub proof fn host_ports_are_distinct(parts: Seq<Seq<char>>)
    ensures
        forall|i: int, j: int|
            0 <= i < j < published(parts).len() ==> (#[trigger] published(parts)[i]).host_port != (
            #[trigger] published(parts)[j]).host_port,
    decreases parts.len(),
{
    if parts.len() > 0 {
        let out = published(parts.drop_last());
        let all = published(parts);
        host_ports_are_distinct(parts.drop_last());
        assert forall|i: int, j: int| 0 <= i < j < all.len() implies (
        #[trigger] all[i]).host_port != (#[trigger] all[j]).host_port by {
            assert(all[i] == out[i]);
            if j < out.len() {
                assert(all[j] == out[j]);
            } else {
                assert(!has_host_port(out, all[j].host_port));
            }
        }
    }
}

/// No part before `i` publishes this host port.
pub open spec fn is_first_with_port(parts: Seq<Seq<char>>, i: int, port: u16) -> bool {
    forall|j: int|
        0 <= j < i ==> (published_in(#[trigger] parts[j]) matches Some(p) ==> p.host_port != port)
}

proof fn lemma_published_from(parts: Seq<Seq<char>>, port: u16)
    ensures
        has_host_port(published(parts), port) <==> exists|i: int|
            0 <= i < parts.len() && (published_in(#[trigger] parts[i]) matches Some(p)
                && p.host_port == port),
    decreases parts.len(),
{
    if parts.len() > 0 {
        let front = parts.drop_last();
        let out = published(front);
        let all = published(parts);
        lemma_published_from(front, port);
        if has_host_port(out, port) {
            let k = choose|k: int| 0 <= k < out.len() && (#[trigger] out[k]).host_port == port;
            assert(all[k].host_port == port);
            let i = choose|i: int|
                0 <= i < front.len() && (published_in(#[trigger] front[i]) matches Some(p)
                    && p.host_port == port);
            assert(parts[i] == front[i]);
        }
        if has_host_port(all, port) && !has_host_port(out, port) {
            let k = choose|k: int| 0 <= k < all.len() && (#[trigger] all[k]).host_port == port;
            if k < out.len() {
                assert(out[k].host_port == port);
            }
            assert(published_in(parts[parts.len() - 1]) == Some(all[k]));
        }
        if exists|i: int|
            0 <= i < parts.len() && (published_in(#[trigger] parts[i]) matches Some(p)
                && p.host_port == port) {
            let i = choose|i: int|
                0 <= i < parts.len() && (published_in(#[trigger] parts[i]) matches Some(p)
                    && p.host_port == port);
            if i < front.len() {
                assert(front[i] == parts[i]);
            } else if !has_host_port(out, port) {
                assert(all.last().host_port == port);
                assert(all[all.len() - 1].host_port == port);
            }
        }
    }
}

proof fn lemma_first_is_published(parts: Seq<Seq<char>>, i: int)
    requires
        0 <= i < parts.len(),
        published_in(parts[i]) is Some,
        is_first_with_port(parts, i, published_in(parts[i])->0.host_port),
    ensures
        published(parts).contains(published_in(parts[i])->0),
    decreases parts.len(),
{
    let front = parts.drop_last();
    let out = published(front);
    let all = published(parts);
    let p = published_in(parts[i])->0;
    if i < front.len() {
        assert forall|j: int| 0 <= j < i implies (published_in(#[trigger] front[j]) matches Some(
            q,
        ) ==> q.host_port != p.host_port) by {
            assert(front[j] == parts[j]);
        }
        lemma_first_is_published(front, i);
        let k = choose|k: int| 0 <= k < out.len() && out[k] == p;
        assert(all[k] == p);
    } else {
        lemma_published_from(front, p.host_port);
        if has_host_port(out, p.host_port) {
            let j = choose|j: int|
                0 <= j < front.len() && (published_in(#[trigger] front[j]) matches Some(q)
                    && q.host_port == p.host_port);
            assert(front[j] == parts[j]);
        }
        assert(all[all.len() - 1] == p);
    }
}

/// Every host port that a part of the port column binds is listed, as the first
/// part that binds it has it.
pub proof fn every_published_port_is_listed(parts: Seq<Seq<char>>, i: int)
    requires
        0 <= i < parts.len(),
        published_in(parts[i]) is Some,
    ensures
        exists|k: int|
            0 <= k < published(parts).len() && (#[trigger] published(parts)[k]).host_port
                == published_in(parts[i])->0.host_port,
        is_first_with_port(parts, i, published_in(parts[i])->0.host_port) ==> published(
            parts,
        ).contains(published_in(parts[i])->0),
{
    lemma_published_from(parts, published_in(parts[i])->0.host_port);
    assert(published_in(parts[i]) matches Some(p) && p.host_port == p.host_port);
    if is_first_with_port(parts, i, published_in(parts[i])->0.host_port) {
        lemma_first_is_published(parts, i);
    }
}

/// What is listed is what some part binds.
pub proof fn only_published_ports_are_listed(parts: Seq<Seq<char>>, k: int)
    requires
        0 <= k < published(parts).len(),
    ensures
        exists|i: int|
            0 <= i < parts.len() && published_in(#[trigger] parts[i]) == Some(published(parts)[k]),
    decreases parts.len(),
{
    let front = parts.drop_last();
    let out = published(front);
    if k < out.len() {
        assert(published(parts)[k] == out[k]);
        only_published_ports_are_listed(front, k);
        let i = choose|i: int|
            0 <= i < front.len() && published_in(#[trigger] front[i]) == Some(out[k]);
        assert(parts[i] == front[i]);
    } else {
        assert(published_in(parts[parts.len() - 1]) == Some(published(parts)[k]));
    }
}

proof fn lemma_binding(host: Seq<char>, target: Seq<char>)
    requires
        !host.contains('>'),
    ensures
        split_at_text(host + "->"@ + target, "->"@) == Some((host, target)),
{
    reveal_strlit("->");
    let s = host + "->"@ + target;
    let i = host.len() as int;
    assert(s.subrange(i, i + 2) =~= "->"@);
    assert forall|j: int| 0 <= j < i implies !text::occurs_at(s, "->"@, j) by {
        if text::occurs_at(s, "->"@, j) {
            assert(s.subrange(j, j + 2)[1] == s[j + 1]);
            if j + 1 < i {
                assert(host.contains(host[j + 1]));
            }
        }
    }
    text::lemma_first_unique(s, "->"@, i);
    assert(s.take(i) =~= host);
    assert(s.skip(i + 2) =~= target);
}

/// `ADDR:HOST->CONTAINER/tcp`, with or without white space around it, binds HOST
/// on ADDR to CONTAINER, where all addresses are written `*`; of any other
/// protocol it binds nothing.
pub proof fn a_binding_is_read_as_written(
    pre: Seq<char>,
    addr: Seq<char>,
    host: u16,
    container: u16,
    post: Seq<char>,
)
    requires
        forall|i: int| 0 <= i < pre.len() ==> text::is_space(#[trigger] pre[i]),
        forall|i: int| 0 <= i < post.len() ==> text::is_space(#[trigger] post[i]),
        addr.len() > 0,
        !text::is_space(addr[0]),
        !addr.contains('>'),
    ensures
        published_in(
            pre + (addr + ":"@ + number::decimal_of(host as nat) + "->"@ + number::decimal_of(
                container as nat,
            ) + "/tcp"@) + post,
        ) == Some(
            PublishedView {
                host_addr: if addr == "0.0.0.0"@ || addr == "[::]"@ {
                    "*"@
                } else {
                    addr
                },
                host_port: host,
                container_port: container,
            },
        ),
        published_in(
            pre + (addr + ":"@ + number::decimal_of(host as nat) + "->"@ + number::decimal_of(
                container as nat,
            ) + "/udp"@) + post,
        ) is None,
{
    reveal_strlit(":");
    reveal_strlit("->");
    reveal_strlit("/tcp");
    reveal_strlit("/udp");
    let h = number::decimal_of(host as nat);
    let c = number::decimal_of(container as nat);
    let left = addr + ":"@ + h;
    number::decimal_denotes_itself(host as nat);
    number::decimal_denotes_itself(container as nat);
    assert forall|j: int| 0 <= j < left.len() implies #[trigger] left[j] != '>' by {
        if j < addr.len() {
            assert(addr.contains(addr[j]));
        } else if j > addr.len() {
            assert(number::digit_of(h[j - addr.len() - 1], 10) is Some);
        }
    }
    assert(!h.contains(':')) by {
        assert forall|j: int| 0 <= j < h.len() implies #[trigger] h[j] != ':' by {
            assert(number::digit_of(h[j], 10) is Some);
        }
    }
    text::splits_are_at_the_first_or_last(addr, ':', h);
    assert(addr + seq![':'] + h =~= left);
    let tcp = c + "/tcp"@;
    let udp = c + "/udp"@;
    let core = left + "->"@ + tcp;
    let other = left + "->"@ + udp;
    lemma_binding(left, tcp);
    lemma_binding(left, udp);
    assert(core.last() == 'p' && other.last() == 'p');
    assert(core[0] == addr[0] && other[0] == addr[0]);
    text::trimming_takes_the_white_space_around(pre, core, post);
    text::trimming_takes_the_white_space_around(pre, other, post);
    assert(addr + ":"@ + h + "->"@ + c + "/tcp"@ =~= core);
    assert(addr + ":"@ + h + "->"@ + c + "/udp"@ =~= other);
    assert(tcp.take(tcp.len() - 4) =~= c);
    assert(tcp.subrange(tcp.len() - 4, tcp.len() as int) =~= "/tcp"@);
    assert(udp.subrange(udp.len() - 4, udp.len() as int)[1] == 'u');
}

/// A part without an arrow, such as a port that is exposed but not published,
/// binds nothing.
pub proof fn only_arrows_bind(part: Seq<char>)
    requires
        !part.contains('>'),
    ensures
        published_in(part) is None,
{
    reveal_strlit("->");
    let t = trimmed(part);
    if text::contains_text(t, "->"@) {
        let i = choose|i: int| text::occurs_at(t, "->"@, i);
        assert(t.subrange(i, i + 2)[1] == t[i + 1]);
        text::lemma_run(part, text::spaces());
        let u = text::trim_start_of(part);
        text::lemma_tail_run(u, text::spaces());
        assert(t[i + 1] == part[text::run(part, text::spaces()) + i + 1]);
        assert(part.contains('>'));
    }
}

/// A label column gives each key the value behind its first equals sign; of
/// several parts with the key the last counts, and there is none without.
pub proof fn a_label_is_what_stands_behind_its_key(
    parts: Seq<Seq<char>>,
    i: int,
    key: Seq<char>,
    value: Seq<char>,
)
    requires
        !key.contains('='),
        0 <= i < parts.len(),
        parts[i] == key + seq!['='] + value,
        forall|j: int|
            i < j < parts.len() ==> (split_once_of(#[trigger] parts[j], '=') matches Some((k, v))
                ==> k != key),
    ensures
        label_in(parts, key) == Some(value),
    decreases parts.len(),
{
    let front = parts.drop_last();
    text::splits_are_at_the_first_or_last(key, '=', value);
    if i < parts.len() - 1 {
        assert(front[i] == parts[i]);
        assert forall|j: int| i < j < front.len() implies (split_once_of(
            #[trigger] front[j],
            '=',
        ) matches Some((k, v)) ==> k != key) by {
            assert(front[j] == parts[j]);
        }
        a_label_is_what_stands_behind_its_key(front, i, key, value);
        assert(split_once_of(parts[parts.len() - 1], '=') matches Some((k, v)) ==> k != key);
    }
}

/// A key that no part has gives no label.
pub proof fn an_absent_label_is_none(parts: Seq<Seq<char>>, key: Seq<char>)
    requires
        forall|j: int|
            0 <= j < parts.len() ==> (split_once_of(#[trigger] parts[j], '=') matches Some((k, v))
                ==> k != key),
    ensures
        label_in(parts, key) is None,
    decreases parts.len(),
{
    if parts.len() > 0 {
        let front = parts.drop_last();
        assert forall|j: int| 0 <= j < front.len() implies (split_once_of(
            #[trigger] front[j],
            '=',
        ) matches Some((k, v)) ==> k != key) by {
            assert(front[j] == parts[j]);
        }
        an_absent_label_is_none(front, key);
        assert(split_once_of(parts[parts.len() - 1], '=') matches Some((k, v)) ==> k != key);
    }
}

/// A container is listed where it publishes a port, under the first of its names,
/// with its compose labels; its service is the compose service, or its name
/// where there is none.
pub proof fn a_container_is_what_its_row_says(row: PsRowView)
    ensures
        ({
            let labels = split_of(row.labels, ',');
            let ports = published(split_of(row.ports, ','));
            let name = split_of(row.names, ',')[0];
            &&& container_in(row) is None <==> ports.len() == 0
            &&& container_in(row) matches Some(c) ==> {
                &&& c.id == row.id
                &&& c.image == row.image
                &&& c.name == name
                &&& c.ports == ports
                &&& c.project == label_in(labels, "com.docker.compose.project"@)
                &&& c.working_dir == label_in(labels, "com.docker.compose.project.working_dir"@)
                &&& label_in(labels, "com.docker.compose.service"@) matches Some(s) ==> c.service
                    == s
                &&& label_in(labels, "com.docker.compose.service"@) is None ==> c.service == name
            }
        }),
{
}

/// Every line that holds a container gives it, and they stand in the order of
/// the lines.
pub proof fn containers_are_those_of_the_lines(
    a: Seq<Seq<char>>,
    line: Seq<char>,
    b: Seq<Seq<char>>,
)
    ensures
        containers_in(a.push(line) + b) == containers_in(a) + (match row_in(line) {
            Some(row) => match container_in(row) {
                Some(c) => seq![c],
                None => seq![],
            },
            None => seq![],
        }) + containers_in(b),
    decreases b.len(),
{
    let all = a.push(line) + b;
    if b.len() == 0 {
        assert(all =~= a.push(line));
        assert(a.push(line).drop_last() =~= a);
        assert(containers_in(all) =~= containers_in(a) + (match row_in(line) {
            Some(row) => match container_in(row) {
                Some(c) => seq![c],
                None => seq![],
            },
            None => seq![],
        }) + containers_in(b));
    } else {
        containers_are_those_of_the_lines(a, line, b.drop_last());
        assert(all.drop_last() =~= a.push(line) + b.drop_last());
        assert(all.last() == b.last());
        assert(containers_in(all) =~= containers_in(a) + (match row_in(line) {
            Some(row) => match container_in(row) {
                Some(c) => seq![c],
                None => seq![],
            },
            None => seq![],
        }) + containers_in(b));
    }
}

/// A row has its id and its names from the members of its line, and nothing where
/// one of these is missing; image, labels and ports may be.
pub proof fn a_row_is_read_from_its_members(line: Seq<char>, id: Seq<char>, names: Seq<char>)
    ensures
        text_member_of(json_of(trimmed(line)), "ID"@) is None ==> row_in(line) is None,
        text_member_of(json_of(trimmed(line)), "Names"@) is None ==> row_in(line) is None,
        row_in(line) matches Some(row) ==> Some(row.id) == text_member_of(
            json_of(trimmed(line)),
            "ID"@,
        ) && Some(row.names) == text_member_of(json_of(trimmed(line)), "Names"@),
        text_member_of(json_of(trimmed(line)), "ID"@) == Some(id) && text_member_of(
            json_of(trimmed(line)),
            "Names"@,
        ) == Some(names) && member_of(json_of(trimmed(line)), "Image"@) is None && member_of(
            json_of(trimmed(line)),
            "Labels"@,
        ) is None && member_of(json_of(trimmed(line)), "Ports"@) is None ==> row_in(line) == Some(
            PsRowView { id, names, image: seq![], labels: seq![], ports: seq![] },
        ),
        row_in(line) matches Some(row) ==> (member_of(json_of(trimmed(line)), "Ports"@) is Some
            ==> Some(row.ports) == text_member_of(json_of(trimmed(line)), "Ports"@)) && (member_of(
            json_of(trimmed(line)),
            "Labels"@,
        ) is Some ==> Some(row.labels) == text_member_of(json_of(trimmed(line)), "Labels"@)) && (
        member_of(json_of(trimmed(line)), "Image"@) is Some ==> Some(row.image) == text_member_of(
            json_of(trimmed(line)),
            "Image"@,
        )),
{
}

/// A failure is told by the first line that `docker` wrote of it.
pub proof fn a_failure_is_told_by_its_first_line(stderr: Seq<char>)
    ensures
        lines_of(trimmed(stderr)).len() > 0 ==> complaint(stderr) == "docker ps: "@ + lines_of(
            trimmed(stderr),
        )[0],
        lines_of(trimmed(stderr)).len() == 0 ==> complaint(stderr) == "docker ps: failed"@,
{
    reveal_strlit("docker ps: ");
    reveal_strlit("failed");
    reveal_strlit("docker ps: failed");
    assert("docker ps: "@ + "failed"@ =~= "docker ps: failed"@);
}

} // verus!
