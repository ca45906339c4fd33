//! Reading and writing JSON texts, one level at a time.

use vstd::prelude::*;

use crate::assoc::has_key;
use crate::seqs;
use crate::seqs::first_where;
use crate::text;
use crate::text::{opt_text, texts};

verus! {

/// A JSON text taken apart by one level; what lies deeper stays compact JSON
/// text.
#[derive(Debug, PartialEq, Eq)]
pub enum Json {
    /// The text is not JSON, for this reason.
    Malformed(String),
    Null,
    Bool(bool),
    /// A number, with its value where it is a natural number of 64 bits.
    Number(Option<u64>),
    Text(String),
    /// The elements of an array.
    List(Vec<String>),
    /// The members of an object, each key once.
    Object(Vec<(String, String)>),
}

/// A [`Json`] with its texts as characters.
pub enum JsonView {
    Malformed(Seq<char>),
    Null,
    Bool(bool),
    Number(Option<u64>),
    Text(Seq<char>),
    List(Seq<Seq<char>>),
    Object(Seq<(Seq<char>, Seq<char>)>),
}

/// The members of a vector, as characters.
pub open spec fn members_view(v: Seq<(String, String)>) -> Seq<(Seq<char>, Seq<char>)> {
    v.map_values(|p: (String, String)| (p.0@, p.1@))
}

impl View for Json {
    type V = JsonView;

    open spec fn view(&self) -> JsonView {
        match self {
            Json::Malformed(e) => JsonView::Malformed(e@),
            Json::Null => JsonView::Null,
            Json::Bool(b) => JsonView::Bool(*b),
            Json::Number(n) => JsonView::Number(*n),
            Json::Text(s) => JsonView::Text(s@),
            Json::List(v) => JsonView::List(texts(v@)),
            Json::Object(v) => JsonView::Object(members_view(v@)),
        }
    }
}

/// What `serde_json::from_str` reads from a text as a `serde_json::Value`,
/// taken apart by one level.
pub uninterp spec fn json_of(s: Seq<char>) -> JsonView;

/// `serde_json::from_str` into a `serde_json::Value`: what it reads depends on
/// the text alone. A text that is not JSON keeps the words of `serde_json::Error`;
/// a number keeps what `Number::as_u64` gives of it; elements
/// and members keep their compact text, which `Value`'s `Display` writes.
#[verifier::external_body]
pub(crate) fn read(s: &str) -> (r: Json)
    ensures
        r@ == json_of(s@),
{
    match serde_json::from_str::<serde_json::Value>(s) {
        Err(e) => Json::Malformed(e.to_string()),
        Ok(serde_json::Value::Null) => Json::Null,
        Ok(serde_json::Value::Bool(b)) => Json::Bool(b),
        Ok(serde_json::Value::Number(n)) => Json::Number(n.as_u64()),
        Ok(serde_json::Value::String(t)) => Json::Text(t),
        Ok(serde_json::Value::Array(v)) => Json::List(v.iter().map(|e| e.to_string()).collect()),
        Ok(serde_json::Value::Object(m)) => {
            Json::Object(m.iter().map(|(k, e)| (k.clone(), e.to_string())).collect())
        }
    }
}

/// How `serde_json` writes a text: quoted and escaped.
pub uninterp spec fn quoted(s: Seq<char>) -> Seq<char>;

/// `Display` of a `serde_json::Value::String`: the text as a JSON string, which
/// depends on the text alone and reads back as the same text.
#[verifier::external_body]
pub(crate) fn quote(s: &str) -> (r: String)
    ensures
        r@ == quoted(s@),
        json_of(r@) == JsonView::Text(s@),
{
    serde_json::Value::String(s.to_string()).to_string()
}

/// The value of the member `key` of an object.
pub open spec fn member_of(j: JsonView, key: Seq<char>) -> Option<Seq<char>> {
    match j {
        JsonView::Object(m) => {
            let k = first_where(m, has_key::<Seq<char>, Seq<char>>(key)) as int;
            if k < m.len() {
                Some(m[k].1)
            } else {
                None
            }
        },
        _ => None,
    }
}

/// The text of a JSON string.
pub open spec fn text_in(j: JsonView) -> Option<Seq<char>> {
    match j {
        JsonView::Text(s) => Some(s),
        _ => None,
    }
}

/// The value of the member `key` of an object, as compact text.
pub fn member(j: &Json, key: &str) -> (r: Option<String>)
    ensures
        opt_text(r) == member_of(j@, key@),
{
    match j {
        Json::Object(m) => {
            let k = seqs::find_where(
                m,
                |p: &(String, String)| -> (b: bool)
                    ensures
                        b == (p.0@ == key@)
                    { text::same(p.0.as_str(), key) },
                Ghost(|p: (String, String)| p.0@ == key@),
            );
            proof {
                seqs::lemma_first_where_map(
                    m@,
                    |p: (String, String)| (p.0@, p.1@),
                    |p: (String, String)| p.0@ == key@,
                    has_key::<Seq<char>, Seq<char>>(key@),
                );
            }
            if k < m.len() {
                Some(m[k].1.clone())
            } else {
                None
            }
        },
        _ => None,
    }
}

/// The text of a JSON string.
pub fn as_text(j: Json) -> (r: Option<String>)
    ensures
        opt_text(r) == text_in(j@),
{
    match j {
        Json::Text(s) => Some(s),
        _ => None,
    }
}

/// The text of the member `key` of an object.
pub open spec fn text_member_of(j: JsonView, key: Seq<char>) -> Option<Seq<char>> {
    match member_of(j, key) {
        Some(t) => text_in(json_of(t)),
        None => None,
    }
}

/// The text of the member `key` of an object.
pub fn text_member(j: &Json, key: &str) -> (r: Option<String>)
    ensures
        opt_text(r) == text_member_of(j@, key@),
{
    match member(j, key) {
        Some(t) => as_text(read(t.as_str())),
        None => None,
    }
}

/// A member is found by its key, and only a string has a text.
pub proof fn a_member_is_found_by_its_key(
    m: Seq<(Seq<char>, Seq<char>)>,
    key: Seq<char>,
    k: int,
    s: Seq<char>,
)
    ensures
        0 <= k < m.len() && m[k].0 == key && (forall|j: int| 0 <= j < k ==> (#[trigger] m[j]).0 != key)
            ==> member_of(JsonView::Object(m), key) == Some(m[k].1),
        (forall|j: int| 0 <= j < m.len() ==> (#[trigger] m[j]).0 != key) ==> member_of(
            JsonView::Object(m),
            key,
        ) is None,
        member_of(JsonView::Text(s), key) is None,
        text_in(JsonView::Text(s)) == Some(s),
        text_in(JsonView::Object(m)) is None,
{
    let f = has_key::<Seq<char>, Seq<char>>(key);
    let j = JsonView::Object(m);
    let n = first_where(m, f) as int;
    seqs::lemma_first_where(m, f);
    assert(member_of(j, key) == if n < m.len() {
        Some(m[n].1)
    } else {
        None
    });
    if n < m.len() {
        assert(f(m[n]));
    }
    if 0 <= k < m.len() && m[k].0 == key {
        assert(f(m[k]));
    }
}

} // verus!
