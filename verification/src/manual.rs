//! What a manual registration points at: `:PORT` or a full URL.

use vstd::prelude::*;

use crate::number;
use crate::number::{decimal_of, port_of};
use crate::text;
use crate::text::{opt_text, rsplit_once_of, split_at_text, split_of, texts};

verus! {

/// Why a target was refused.
#[derive(Debug, Clone, Copy, PartialEq, Eq, Structural)]
pub enum TargetError {
    /// It starts with a colon, and what follows is no port.
    NotAPort,
    /// It is neither a port nor a URL.
    NotATarget,
    /// The URL has no port.
    NoPort,
    /// The port of the URL is no number.
    BadPort,
}

/// The host and port of a URL, where it is one.
pub open spec fn authority_of(target: Seq<char>) -> Option<Seq<char>> {
    match split_at_text(target, "://"@) {
        Some((_, rest)) => Some(split_of(rest, '/')[0]),
        None => None,
    }
}

/// The port that a target means, with the URL where it is one.
pub open spec fn target_of(target: Seq<char>) -> Result<(u16, Option<Seq<char>>), TargetError> {
    if target.len() > 0 && target[0] == ':' {
        match port_of(target.skip(1)) {
            Some(port) => Ok((port, None)),
            None => Err(TargetError::NotAPort),
        }
    } else {
        match authority_of(target) {
            None => Err(TargetError::NotATarget),
            Some(a) => match rsplit_once_of(a, ':') {
                None => Err(TargetError::NoPort),
                Some((_, port)) => match port_of(port) {
                    None => Err(TargetError::BadPort),
                    Some(port) => Ok((port, Some(target))),
                },
            },
        }
    }
}

/// Reads `:3000` (the daemon infers the URL) or a full
/// `scheme://host:port[/path]` URL, which is kept as it is.
pub fn parse_target(target: &str) -> (r: Result<(u16, Option<String>), TargetError>)
    ensures
        r is Ok <==> target_of(target@) is Ok,
        r matches Ok((port, url)) ==> target_of(target@) == Ok::<_, TargetError>(
            (port, opt_text(url)),
        ),
        r matches Err(e) ==> target_of(target@) == Err::<(u16, Option<Seq<char>>), _>(e),
{
    if !target.is_empty() && target.get_char(0) == ':' {
        let v = text::chars_of(target);
        let rest = text::piece(&v, 1, v.len());
        assert(rest@ =~= target@.skip(1));
        return match number::parse_port(rest.as_str()) {
            Some(port) => Ok((port, None)),
            None => Err(TargetError::NotAPort),
        };
    }
    match text::split_text(target, "://") {
        None => Err(TargetError::NotATarget),
        Some((_, rest)) => {
            let pieces = text::split(rest.as_str(), '/');
            assert(texts(pieces@).len() == pieces@.len());
            assert(texts(pieces@)[0] == pieces@[0]@);
            match text::rsplit_once(pieces[0].as_str(), ':') {
                None => Err(TargetError::NoPort),
                Some((_, port)) => match number::parse_port(port.as_str()) {
                    None => Err(TargetError::BadPort),
                    Some(port) => Ok((port, Some(target.to_owned()))),
                },
            }
        },
    }
}

/// What is wrong with a target, in words.
pub open spec fn complaint(e: TargetError, target: Seq<char>) -> Seq<char> {
    seq!['`'] + target + match e {
        TargetError::NotAPort => "` is not `:PORT`"@,
        TargetError::NotATarget => "` is not `:PORT` or a `scheme://host:port` URL"@,
        TargetError::NoPort => "` has no port"@,
        TargetError::BadPort => "` has a non-numeric port"@,
    }
}

impl TargetError {
    /// What is wrong with `target`, in words.
    pub fn message(&self, target: &str) -> (r: String)
        ensures
            r@ == complaint(*self, target@),
    {
        let mut out = String::new();
        out.push('`');
        text::push_text(&mut out, target);
        match self {
            TargetError::NotAPort => text::push_text(&mut out, "` is not `:PORT`"),
            TargetError::NotATarget => text::push_text(
                &mut out,
                "` is not `:PORT` or a `scheme://host:port` URL",
            ),
            TargetError::NoPort => text::push_text(&mut out, "` has no port"),
            TargetError::BadPort => text::push_text(&mut out, "` has a non-numeric port"),
        }
        assert(out@ =~= complaint(*self, target@));
        out
    }
}

/// Every port can be written as a target.
pub proof fn every_port_is_a_target(port: u16)
    ensures
        target_of(seq![':'] + decimal_of(port as nat)) == Ok::<_, TargetError>(
            (port, None::<Seq<char>>),
        ),
{
    number::decimal_denotes_itself(port as nat);
    let t = seq![':'] + decimal_of(port as nat);
    assert(t.skip(1) =~= decimal_of(port as nat));
}

/// A URL that is accepted is kept as it is.
pub proof fn an_accepted_url_is_kept(target: Seq<char>)
    ensures
        target_of(target) matches Ok((_, Some(url))) ==> url == target,
{
}

/// A URL is registered with the port behind its host, whatever its path is, and
/// kept as it was written.
pub proof fn a_url_means_its_port(
    scheme: Seq<char>,
    host: Seq<char>,
    port: u16,
    path: Seq<char>,
)
    requires
        scheme.len() > 0,
        !scheme.contains(':'),
        !host.contains('/'),
        path.len() == 0 || path[0] == '/',
    ensures
        ({
            let url = scheme + "://"@ + (host + seq![':'] + decimal_of(port as nat) + path);
            target_of(url) == Ok::<_, TargetError>((port, Some(url)))
        }),
{
    let d = decimal_of(port as nat);
    let a = host + seq![':'] + d;
    let rest = a + path;
    let url = scheme + "://"@ + rest;
    reveal_strlit("://");
    text::a_text_contains_its_parts(scheme, "://"@, rest);
    number::decimal_denotes_itself(port as nat);
    number::lemma_decimal_chars(port as nat);
    assert(scheme.contains(scheme[0]));
    assert(url[0] == scheme[0]);
    let p = text::other_than('/');
    assert forall|i: int| 0 <= i < a.len() implies p(#[trigger] rest[i]) by {
        if i < host.len() {
            assert(host.contains(host[i]));
        } else if i > host.len() {
            assert(rest[i] == d[i - host.len() - 1]);
        }
    }
    text::lemma_run_unique(rest, p, a.len() as int);
    assert(rest.take(a.len() as int) =~= a);
    assert(split_of(rest, '/')[0] == a);
    assert(!d.contains(':')) by {
        assert forall|i: int| 0 <= i < d.len() implies #[trigger] d[i] != ':' by {}
    }
    text::splits_are_at_the_first_or_last(host, ':', d);
}

/// What is no target is refused with the reason: a colon with no port behind it,
/// a text that is no URL, and a URL without a port.
pub proof fn what_is_no_target_is_refused(text: Seq<char>, scheme: Seq<char>, host: Seq<char>)
    requires
        scheme.len() > 0,
        !scheme.contains(':'),
        !host.contains('/'),
        !host.contains(':'),
    ensures
        port_of(text) is None ==> target_of(seq![':'] + text) == Err::<
            (u16, Option<Seq<char>>),
            _,
        >(TargetError::NotAPort),
        !text.contains(':') ==> target_of(text) == Err::<(u16, Option<Seq<char>>), _>(
            TargetError::NotATarget,
        ),
        target_of(scheme + "://"@ + host) == Err::<(u16, Option<Seq<char>>), _>(
            TargetError::NoPort,
        ),
        port_of(text) is None && !text.contains('/') && !text.contains(':') ==> target_of(
            scheme + "://"@ + (host + seq![':'] + text),
        ) == Err::<(u16, Option<Seq<char>>), _>(TargetError::BadPort),
{
    reveal_strlit("://");
    assert((seq![':'] + text).skip(1) =~= text);
    if !text.contains(':') {
        assert(!text::contains_text(text, "://"@)) by {
            if text::contains_text(text, "://"@) {
                let i = choose|i: int| text::occurs_at(text, "://"@, i);
                assert(text.subrange(i, i + 3)[0] == text[i]);
                assert(text.contains(text[i]));
            }
        }
        text::a_text_contains_its_parts(text, "://"@, text);
        assert(text.len() > 0 ==> text.contains(text[0]));
    }
    assert(scheme.contains(scheme[0]));
    let p = text::other_than('/');
    text::a_text_contains_its_parts(scheme, "://"@, host);
    assert forall|i: int| 0 <= i < host.len() implies p(#[trigger] host[i]) by {
        assert(host.contains(host[i]));
    }
    text::lemma_run_unique(host, p, host.len() as int);
    assert(split_of(host, '/')[0] =~= host);
    text::splits_are_at_the_first_or_last(host, ':', text);
    if !text.contains('/') {
        let a = host + seq![':'] + text;
        text::a_text_contains_its_parts(scheme, "://"@, a);
        assert forall|i: int| 0 <= i < a.len() implies p(#[trigger] a[i]) by {
            if i < host.len() {
                assert(host.contains(host[i]));
            } else if i > host.len() {
                assert(text.contains(text[i - host.len() - 1]));
            }
        }
        text::lemma_run_unique(a, p, a.len() as int);
        assert(split_of(a, '/')[0] =~= a);
    }
}

} // verus!
