//! Text as sequences of characters: the vocabulary that the parsers and
//! formatters of the other modules are stated over.

use vstd::prelude::*;
use vstd::slice::slice_subrange;

verus! {

// ---------------------------------------------------------------------------
// Trusted items of the standard library
// ---------------------------------------------------------------------------

/// `String::push` appends one character.
pub assume_specification[ String::push ](s: &mut String, c: char)
    ensures
        final(s)@ == old(s)@.push(c),
;

/// What `str::to_lowercase` makes of a text (Unicode case mapping).
pub uninterp spec fn lowercased(s: Seq<char>) -> Seq<char>;

/// `str::to_lowercase`: a function of the text alone; which characters come
/// out is left to the Unicode tables and not stated.
#[verifier::external_body]
pub(crate) fn to_lowercase(s: &str) -> (r: String)
    ensures
        r@ == lowercased(s@),
{
    s.to_lowercase()
}

/// What `String::from_utf8_lossy` makes of bytes.
pub uninterp spec fn utf8_lossy(bytes: Seq<u8>) -> Seq<char>;

/// `String::from_utf8_lossy`: a function of the bytes alone. For the encoding
/// of a text it is that text; how ill-formed bytes are replaced is not stated.
#[verifier::external_body]
pub(crate) fn from_utf8_lossy(bytes: &[u8]) -> (r: String)
    ensures
        r@ == utf8_lossy(bytes@),
        vstd::utf8::valid_utf8(bytes@) ==> r@ == vstd::utf8::decode_utf8(bytes@),
{
    String::from_utf8_lossy(bytes).into_owned()
}

// ---------------------------------------------------------------------------
// Vocabulary
// ---------------------------------------------------------------------------

/// The Unicode `White_Space` property.
pub open spec fn is_space(c: char) -> bool {
    ||| '\u{9}' <= c <= '\u{d}'
    ||| c == '\u{20}'
    ||| c == '\u{85}'
    ||| c == '\u{a0}'
    ||| c == '\u{1680}'
    ||| '\u{2000}' <= c <= '\u{200a}'
    ||| c == '\u{2028}'
    ||| c == '\u{2029}'
    ||| c == '\u{202f}'
    ||| c == '\u{205f}'
    ||| c == '\u{3000}'
}

/// Decimal digits.
pub open spec fn is_digit(c: char) -> bool {
    '0' <= c <= '9'
}

/// White space, as a predicate.
pub open spec fn spaces() -> spec_fn(char) -> bool {
    |c: char| is_space(c)
}

/// Everything but white space, as a predicate.
pub open spec fn inks() -> spec_fn(char) -> bool {
    |c: char| !is_space(c)
}

/// Everything but `sep`, as a predicate.
pub open spec fn other_than(sep: char) -> spec_fn(char) -> bool {
    |c: char| c != sep
}

/// Length of the longest prefix of `s` whose characters all satisfy `p`.
pub open spec fn run(s: Seq<char>, p: spec_fn(char) -> bool) -> nat
    decreases s.len(),
{
    if s.len() == 0 || !p(s[0]) {
        0
    } else {
        1 + run(s.drop_first(), p)
    }
}

/// Length of the longest suffix of `s` whose characters all satisfy `p`.
pub open spec fn tail_run(s: Seq<char>, p: spec_fn(char) -> bool) -> nat
    decreases s.len(),
{
    if s.len() == 0 || !p(s.last()) {
        0
    } else {
        1 + tail_run(s.drop_last(), p)
    }
}

/// `s` without leading white space.
pub open spec fn trim_start_of(s: Seq<char>) -> Seq<char> {
    s.skip(run(s, spaces()) as int)
}

/// `s` without trailing white space.
pub open spec fn trim_end_of(s: Seq<char>) -> Seq<char> {
    s.take(s.len() - tail_run(s, spaces()))
}

/// `s` without leading and trailing white space.
pub open spec fn trimmed(s: Seq<char>) -> Seq<char> {
    trim_end_of(trim_start_of(s))
}

/// The text before and after the first `sep`, if there is one.
pub open spec fn split_once_of(s: Seq<char>, sep: char) -> Option<(Seq<char>, Seq<char>)> {
    let i = run(s, other_than(sep)) as int;
    if i < s.len() {
        Some((s.take(i), s.skip(i + 1)))
    } else {
        None
    }
}

/// The text before and after the last `sep`, if there is one.
pub open spec fn rsplit_once_of(s: Seq<char>, sep: char) -> Option<(Seq<char>, Seq<char>)> {
    let i = s.len() - 1 - tail_run(s, other_than(sep));
    if i >= 0 {
        Some((s.take(i), s.skip(i + 1)))
    } else {
        None
    }
}

/// The pieces of `s` between separators; always at least one.
pub open spec fn split_of(s: Seq<char>, sep: char) -> Seq<Seq<char>>
    decreases s.len(),
{
    let i = run(s, other_than(sep)) as int;
    if i < s.len() {
        seq![s.take(i)] + split_of(s.skip(i + 1), sep)
    } else {
        seq![s]
    }
}

/// `s` without one trailing carriage return.
pub open spec fn strip_cr(s: Seq<char>) -> Seq<char> {
    if s.len() > 0 && s.last() == '\r' {
        s.drop_last()
    } else {
        s
    }
}

/// The lines of `s`: ended by a line feed, with or without a carriage return
/// before it; the last line need not be ended.
pub open spec fn lines_of(s: Seq<char>) -> Seq<Seq<char>>
    decreases s.len(),
{
    let i = run(s, other_than('\n')) as int;
    if i < s.len() {
        seq![strip_cr(s.take(i))] + lines_of(s.skip(i + 1))
    } else if s.len() > 0 {
        seq![s]
    } else {
        seq![]
    }
}

/// The words of `s`: its maximal runs without white space.
pub open spec fn words_of(s: Seq<char>) -> Seq<Seq<char>>
    decreases s.len(),
{
    let a = run(s, spaces()) as int;
    let t = s.skip(a);
    if a >= s.len() {
        seq![]
    } else {
        let b = run(t, inks()) as int;
        if b <= 0 || b > t.len() {
            seq![]
        } else {
            seq![t.take(b)] + words_of(t.skip(b))
        }
    }
}

/// `pat` stands in `s` at position `i`.
pub open spec fn occurs_at(s: Seq<char>, pat: Seq<char>, i: int) -> bool {
    &&& 0 <= i
    &&& i + pat.len() <= s.len()
    &&& s.subrange(i, i + pat.len()) == pat
}

/// `pat` stands somewhere in `s`.
pub open spec fn contains_text(s: Seq<char>, pat: Seq<char>) -> bool {
    exists|i: int| occurs_at(s, pat, i)
}

/// `i` is the first position at which `pat` stands in `s`.
pub open spec fn first_at(s: Seq<char>, pat: Seq<char>, i: int) -> bool {
    &&& occurs_at(s, pat, i)
    &&& forall|j: int| 0 <= j < i ==> !occurs_at(s, pat, j)
}

/// The text before and after the first `pat`, if there is one.
pub open spec fn split_at_text(s: Seq<char>, pat: Seq<char>) -> Option<(Seq<char>, Seq<char>)> {
    if contains_text(s, pat) {
        let i = choose|i: int| first_at(s, pat, i);
        Some((s.take(i), s.skip(i + pat.len())))
    } else {
        None
    }
}

/// `pieces` one after another, `sep` between them.
pub open spec fn joined(pieces: Seq<Seq<char>>, sep: Seq<char>) -> Seq<char>
    decreases pieces.len(),
{
    if pieces.len() == 0 {
        seq![]
    } else if pieces.len() == 1 {
        pieces[0]
    } else {
        joined(pieces.drop_last(), sep) + sep + pieces.last()
    }
}

/// The texts of a vector of strings.
pub open spec fn texts(v: Seq<String>) -> Seq<Seq<char>> {
    v.map_values(|s: String| s@)
}

/// The text of an optional string.
pub open spec fn opt_text(o: Option<String>) -> Option<Seq<char>> {
    match o {
        Some(s) => Some(s@),
        None => None,
    }
}

// ---------------------------------------------------------------------------
// Facts about runs
// ---------------------------------------------------------------------------

pub proof fn lemma_run(s: Seq<char>, p: spec_fn(char) -> bool)
    ensures
        run(s, p) <= s.len(),
        forall|i: int| 0 <= i < run(s, p) ==> p(#[trigger] s[i]),
        run(s, p) < s.len() ==> !p(s[run(s, p) as int]),
    decreases s.len(),
{
    if s.len() != 0 && p(s[0]) {
        let t = s.drop_first();
        lemma_run(t, p);
        assert forall|i: int| 0 <= i < run(s, p) implies p(#[trigger] s[i]) by {
            if i > 0 {
                assert(s[i] == t[i - 1]);
            }
        }
    }
}

pub proof fn lemma_run_unique(s: Seq<char>, p: spec_fn(char) -> bool, k: int)
    requires
        0 <= k <= s.len(),
        forall|i: int| 0 <= i < k ==> p(#[trigger] s[i]),
        k < s.len() ==> !p(s[k]),
    ensures
        run(s, p) == k,
{
    lemma_run(s, p);
    let r = run(s, p) as int;
    if r < k {
        assert(p(s[r]));
    } else if k < r {
        assert(p(s[k]));
    }
}

pub proof fn lemma_tail_run(s: Seq<char>, p: spec_fn(char) -> bool)
    ensures
        tail_run(s, p) <= s.len(),
        forall|i: int| s.len() - tail_run(s, p) <= i < s.len() ==> p(#[trigger] s[i]),
        tail_run(s, p) < s.len() ==> !p(s[s.len() - tail_run(s, p) - 1]),
    decreases s.len(),
{
    if s.len() != 0 && p(s.last()) {
        let t = s.drop_last();
        lemma_tail_run(t, p);
        assert forall|i: int| s.len() - tail_run(s, p) <= i < s.len() implies p(
            #[trigger] s[i],
        ) by {
            if i < s.len() - 1 {
                assert(s[i] == t[i]);
            }
        }
    }
}

pub proof fn lemma_tail_run_unique(s: Seq<char>, p: spec_fn(char) -> bool, k: int)
    requires
        0 <= k <= s.len(),
        forall|i: int| s.len() - k <= i < s.len() ==> p(#[trigger] s[i]),
        k < s.len() ==> !p(s[s.len() - k - 1]),
    ensures
        tail_run(s, p) == k,
{
    lemma_tail_run(s, p);
    let r = tail_run(s, p) as int;
    if r < k {
        assert(p(s[s.len() - r - 1]));
    } else if k < r {
        assert(p(s[s.len() - k - 1]));
    }
}

// ---------------------------------------------------------------------------
// Characters and strings
// ---------------------------------------------------------------------------

/// The characters of `s`.
pub fn chars_of(s: &str) -> (r: Vec<char>)
    ensures
        r@ == s@,
{
    let mut out: Vec<char> = Vec::new();
    for c in it: s.chars()
        invariant
            it.seq() == s@,
            out@ == it.seq().take(it.index() as int),
    {
        out.push(c);
    }
    proof {
        assert(s@.take(s@.len() as int) == s@);
    }
    out
}

/// The text made of `chars`.
pub fn string_of(chars: &[char]) -> (r: String)
    ensures
        r@ == chars@,
{
    let mut out = String::new();
    let mut i: usize = 0;
    while i < chars.len()
        invariant
            i <= chars@.len(),
            out@ == chars@.take(i as int),
        decreases chars.len() - i,
    {
        out.push(chars[i]);
        proof {
            assert(chars@.take(i as int + 1) == chars@.take(i as int).push(chars@[i as int]));
        }
        i = i + 1;
    }
    proof {
        assert(chars@.take(chars@.len() as int) == chars@);
    }
    out
}

/// The characters from `from` up to `to`.
pub fn piece(chars: &Vec<char>, from: usize, to: usize) -> (r: String)
    requires
        from <= to <= chars@.len(),
    ensures
        r@ == chars@.subrange(from as int, to as int),
{
    string_of(slice_subrange(chars.as_slice(), from, to))
}

/// Whether two texts are equal.
pub fn same(a: &str, b: &str) -> (r: bool)
    ensures
        r == (a@ == b@),
{
    let x: String = a.to_owned();
    let y: String = b.to_owned();
    x == y
}

/// A copy of an optional text.
pub fn copy_opt(o: &Option<String>) -> (r: Option<String>)
    ensures
        r == *o,
{
    match o {
        Some(s) => Some(s.clone()),
        None => None,
    }
}

/// Whether two optional texts are equal.
pub fn same_opt(a: &Option<String>, b: &Option<String>) -> (r: bool)
    ensures
        r == (opt_text(*a) == opt_text(*b)),
{
    match (a, b) {
        (Some(x), Some(y)) => same(x.as_str(), y.as_str()),
        (None, None) => true,
        _ => false,
    }
}

/// Whether `c` is white space.
pub fn space(c: char) -> (r: bool)
    ensures
        r == is_space(c),
{
    ('\u{9}' <= c && c <= '\u{d}') || c == '\u{20}' || c == '\u{85}' || c == '\u{a0}' || c
        == '\u{1680}' || ('\u{2000}' <= c && c <= '\u{200a}') || c == '\u{2028}' || c == '\u{2029}'
        || c == '\u{202f}' || c == '\u{205f}' || c == '\u{3000}'
}

/// The first position at or after `from` that holds `sep`, or the end.
pub fn find_char(v: &Vec<char>, from: usize, sep: char) -> (r: usize)
    requires
        from <= v@.len(),
    ensures
        r <= v@.len(),
        r == from + run(v@.skip(from as int), other_than(sep)),
{
    let ghost t = v@.skip(from as int);
    let mut i: usize = from;
    while i < v.len() && v[i] != sep
        invariant
            from <= i <= v@.len(),
            t == v@.skip(from as int),
            forall|j: int| 0 <= j < i - from ==> #[trigger] t[j] != sep,
        decreases v.len() - i,
    {
        i = i + 1;
    }
    proof {
        lemma_run_unique(t, other_than(sep), i - from);
    }
    i
}

/// The first position at or after `from` that holds no white space, or the end.
pub fn find_ink(v: &Vec<char>, from: usize) -> (r: usize)
    requires
        from <= v@.len(),
    ensures
        r <= v@.len(),
        r == from + run(v@.skip(from as int), spaces()),
{
    let ghost t = v@.skip(from as int);
    let mut i: usize = from;
    while i < v.len() && space(v[i])
        invariant
            from <= i <= v@.len(),
            t == v@.skip(from as int),
            forall|j: int| 0 <= j < i - from ==> is_space(#[trigger] t[j]),
        decreases v.len() - i,
    {
        i = i + 1;
    }
    proof {
        lemma_run_unique(t, spaces(), i - from);
    }
    i
}

/// The first position at or after `from` that holds white space, or the end.
pub fn find_space(v: &Vec<char>, from: usize) -> (r: usize)
    requires
        from <= v@.len(),
    ensures
        r <= v@.len(),
        r == from + run(v@.skip(from as int), inks()),
{
    let ghost t = v@.skip(from as int);
    let mut i: usize = from;
    while i < v.len() && !space(v[i])
        invariant
            from <= i <= v@.len(),
            t == v@.skip(from as int),
            forall|j: int| 0 <= j < i - from ==> !is_space(#[trigger] t[j]),
        decreases v.len() - i,
    {
        i = i + 1;
    }
    proof {
        lemma_run_unique(t, inks(), i - from);
    }
    i
}

/// `s` without leading and trailing white space.
pub fn trim(s: &str) -> (r: String)
    ensures
        r@ == trimmed(s@),
{
    let v = chars_of(s);
    let from = find_ink(&v, 0);
    let mut to: usize = v.len();
    let ghost t = s@.skip(from as int);
    proof {
        assert(v@.skip(0) == s@);
        assert(t == trim_start_of(s@));
    }
    while to > from && space(v[to - 1])
        invariant
            from <= to <= v@.len(),
            v@ == s@,
            t == s@.skip(from as int),
            forall|j: int| to - from <= j < t.len() ==> is_space(#[trigger] t[j]),
        decreases to,
    {
        to = to - 1;
    }
    proof {
        lemma_tail_run_unique(t, spaces(), v@.len() - to);
        assert(s@.subrange(from as int, to as int) == t.take(to - from));
    }
    piece(&v, from, to)
}

/// The text before and after the first `sep`.
pub fn split_once(s: &str, sep: char) -> (r: Option<(String, String)>)
    ensures
        r is Some <==> split_once_of(s@, sep) is Some,
        r matches Some((a, b)) ==> Some((a@, b@)) == split_once_of(s@, sep),
{
    let v = chars_of(s);
    let i = find_char(&v, 0, sep);
    proof {
        assert(v@.skip(0) == s@);
    }
    if i < v.len() {
        proof {
            assert(s@.subrange(0, i as int) == s@.take(i as int));
            assert(s@.subrange(i + 1, s@.len() as int) == s@.skip(i + 1));
        }
        Some((piece(&v, 0, i), piece(&v, i + 1, v.len())))
    } else {
        None
    }
}

/// The text before and after the last `sep`.
pub fn rsplit_once(s: &str, sep: char) -> (r: Option<(String, String)>)
    ensures
        r is Some <==> rsplit_once_of(s@, sep) is Some,
        r matches Some((a, b)) ==> Some((a@, b@)) == rsplit_once_of(s@, sep),
{
    let v = chars_of(s);
    let mut i: usize = v.len();
    while i > 0 && v[i - 1] != sep
        invariant
            i <= v@.len(),
            v@ == s@,
            forall|j: int| i <= j < s@.len() ==> #[trigger] s@[j] != sep,
        decreases i,
    {
        i = i - 1;
    }
    proof {
        lemma_tail_run_unique(s@, other_than(sep), s@.len() - i);
    }
    if i > 0 {
        proof {
            assert(s@.subrange(0, i - 1) == s@.take(i - 1));
            assert(s@.subrange(i as int, s@.len() as int) == s@.skip(i as int));
        }
        Some((piece(&v, 0, i - 1), piece(&v, i, v.len())))
    } else {
        None
    }
}

/// The pieces of `s` between separators.
pub fn split(s: &str, sep: char) -> (r: Vec<String>)
    ensures
        texts(r@) == split_of(s@, sep),
{
    let v = chars_of(s);
    let mut out: Vec<String> = Vec::new();
    let mut from: usize = 0;
    proof {
        assert(s@.skip(0) == s@);
        assert(texts(out@) + split_of(s@, sep) == split_of(s@, sep));
    }
    loop
        invariant
            from <= v@.len(),
            v@ == s@,
            texts(out@) + split_of(s@.skip(from as int), sep) == split_of(s@, sep),
        decreases v@.len() - from,
    {
        let ghost t = s@.skip(from as int);
        let to = find_char(&v, from, sep);
        let ghost before = texts(out@);
        if to < v.len() {
            let p = piece(&v, from, to);
            proof {
                assert(p@ == t.take(to - from));
                assert(t.skip(to - from + 1) == s@.skip(to + 1));
            }
            out.push(p);
            proof {
                assert(texts(out@) == before.push(p@));
                assert(texts(out@) + split_of(s@.skip(to + 1), sep) == before + (seq![p@]
                    + split_of(s@.skip(to + 1), sep)));
            }
            from = to + 1;
        } else {
            let p = piece(&v, from, to);
            out.push(p);
            proof {
                assert(p@ == t);
                assert(texts(out@) == before.push(p@));
                assert(before.push(p@) == before + seq![t]);
            }
            return out;
        }
    }
}

/// The lines of `s`.
pub fn lines(s: &str) -> (r: Vec<String>)
    ensures
        texts(r@) == lines_of(s@),
{
    let v = chars_of(s);
    let mut out: Vec<String> = Vec::new();
    let mut from: usize = 0;
    proof {
        assert(s@.skip(0) == s@);
        assert(texts(out@) + lines_of(s@) == lines_of(s@));
    }
    while from < v.len()
        invariant
            from <= v@.len(),
            v@ == s@,
            texts(out@) + lines_of(s@.skip(from as int)) == lines_of(s@),
        decreases v@.len() - from,
    {
        let ghost t = s@.skip(from as int);
        let to = find_char(&v, from, '\n');
        let ghost before = texts(out@);
        if to < v.len() {
            let end = if to > from && v[to - 1] == '\r' {
                to - 1
            } else {
                to
            };
            let p = piece(&v, from, end);
            proof {
                assert(t.take(to - from).len() == to - from);
                assert(to > from ==> t.take(to - from).last() == v@[to - 1]);
                assert(p@ == strip_cr(t.take(to - from)));
                assert(t.skip(to - from + 1) == s@.skip(to + 1));
            }
            out.push(p);
            proof {
                assert(texts(out@) == before.push(p@));
                assert(texts(out@) + lines_of(s@.skip(to + 1)) == before + (seq![p@] + lines_of(
                    s@.skip(to + 1),
                )));
            }
            from = to + 1;
        } else {
            let p = piece(&v, from, to);
            out.push(p);
            proof {
                assert(p@ == t);
                assert(texts(out@) == before.push(p@));
                assert(before.push(p@) == before + seq![t]);
                assert(s@.skip(to as int) == Seq::<char>::empty());
                assert(lines_of(Seq::<char>::empty()) == Seq::<Seq<char>>::empty());
                assert(texts(out@) + Seq::<Seq<char>>::empty() == texts(out@));
            }
            from = to;
        }
    }
    proof {
        assert(s@.skip(from as int) == Seq::<char>::empty());
        assert(texts(out@) + Seq::<Seq<char>>::empty() == texts(out@));
    }
    out
}

/// The words of `s`.
pub fn words(s: &str) -> (r: Vec<String>)
    ensures
        texts(r@) == words_of(s@),
{
    let v = chars_of(s);
    let mut out: Vec<String> = Vec::new();
    let mut from: usize = 0;
    proof {
        assert(s@.skip(0) == s@);
        assert(texts(out@) + words_of(s@) == words_of(s@));
    }
    loop
        invariant
            from <= v@.len(),
            v@ == s@,
            texts(out@) + words_of(s@.skip(from as int)) == words_of(s@),
        decreases v@.len() - from,
    {
        let ghost t = s@.skip(from as int);
        let a = find_ink(&v, from);
        let ghost before = texts(out@);
        proof {
            assert(t.skip(a - from) == s@.skip(a as int));
        }
        if a >= v.len() {
            proof {
                assert(words_of(t) == Seq::<Seq<char>>::empty());
                assert(before + Seq::<Seq<char>>::empty() == before);
            }
            return out;
        }
        let b = find_space(&v, a);
        let p = piece(&v, a, b);
        proof {
            let u = s@.skip(a as int);
            lemma_run(t, spaces());
            assert(t[a - from] == u[0]);
            assert(b > a);
            assert(p@ == u.take(b - a));
            assert(u.skip(b - a) == s@.skip(b as int));
        }
        out.push(p);
        proof {
            assert(texts(out@) == before.push(p@));
            assert(texts(out@) + words_of(s@.skip(b as int)) == before + (seq![p@] + words_of(
                s@.skip(b as int),
            )));
        }
        from = b;
    }
}


/// Whether `s` starts with `prefix`.
pub fn starts_with(s: &str, prefix: &str) -> (r: bool)
    ensures
        r == prefix@.is_prefix_of(s@),
{
    let v = chars_of(s);
    let p = chars_of(prefix);
    if p.len() > v.len() {
        return false;
    }
    let mut i: usize = 0;
    while i < p.len()
        invariant
            p@.len() <= v@.len(),
            v@ == s@,
            p@ == prefix@,
            i <= p@.len(),
            forall|j: int| 0 <= j < i ==> #[trigger] p@[j] == v@[j],
        decreases p.len() - i,
    {
        if p[i] != v[i] {
            proof {
                assert(s@.subrange(0, prefix@.len() as int)[i as int] != prefix@[i as int]);
            }
            return false;
        }
        i = i + 1;
    }
    proof {
        assert(s@.subrange(0, prefix@.len() as int) == prefix@);
    }
    true
}

/// `s` without `prefix`, if it starts with it.
pub fn strip_prefix(s: &str, prefix: &str) -> (r: Option<String>)
    ensures
        r is Some <==> prefix@.is_prefix_of(s@),
        r matches Some(t) ==> t@ == s@.skip(prefix@.len() as int),
{
    if starts_with(s, prefix) {
        let v = chars_of(s);
        let p = chars_of(prefix);
        let t = piece(&v, p.len(), v.len());
        proof {
            assert(t@ == s@.skip(prefix@.len() as int));
        }
        Some(t)
    } else {
        None
    }
}

/// `s` without `suffix`, if it ends with it.
pub fn strip_suffix(s: &str, suffix: &str) -> (r: Option<String>)
    ensures
        r is Some <==> suffix@.is_suffix_of(s@),
        r matches Some(t) ==> t@ == s@.take(s@.len() - suffix@.len()),
{
    let v = chars_of(s);
    let p = chars_of(suffix);
    if p.len() > v.len() {
        return None;
    }
    let at: usize = v.len() - p.len();
    let end = piece(&v, at, v.len());
    if same(end.as_str(), suffix) {
        let t = piece(&v, 0, at);
        proof {
            assert(t@ == s@.take(s@.len() - suffix@.len()));
        }
        Some(t)
    } else {
        None
    }
}

/// Whether `pat` stands in `v` at `at`.
pub fn stands_at(v: &Vec<char>, pat: &Vec<char>, at: usize) -> (r: bool)
    requires
        at <= v@.len(),
    ensures
        r == occurs_at(v@, pat@, at as int),
{
    let total: usize = v.len();
    if pat.len() > total - at {
        return false;
    }
    let mut i: usize = 0;
    while i < pat.len()
        invariant
            total == v@.len(),
            at + pat@.len() <= total,
            i <= pat@.len(),
            forall|j: int| 0 <= j < i ==> #[trigger] pat@[j] == v@[at + j],
        decreases pat.len() - i,
    {
        if pat[i] != v[at + i] {
            proof {
                assert(v@.subrange(at as int, at + pat@.len())[i as int] != pat@[i as int]);
            }
            return false;
        }
        i = i + 1;
    }
    proof {
        assert(v@.subrange(at as int, at + pat@.len()) == pat@);
    }
    true
}

/// The first position at which `pat` stands in `v`.
pub fn find_text(v: &Vec<char>, pat: &Vec<char>) -> (r: Option<usize>)
    ensures
        r is Some <==> contains_text(v@, pat@),
        r matches Some(i) ==> first_at(v@, pat@, i as int),
{
    let mut i: usize = 0;
    loop
        invariant
            i <= v@.len(),
            forall|j: int| 0 <= j < i ==> !occurs_at(v@, pat@, j),
        decreases v@.len() - i,
    {
        if stands_at(v, pat, i) {
            return Some(i);
        }
        if i >= v.len() {
            return None;
        }
        i = i + 1;
    }
}

/// Whether `pat` stands somewhere in `s`.
pub fn contains(s: &str, pat: &str) -> (r: bool)
    ensures
        r == contains_text(s@, pat@),
{
    let v = chars_of(s);
    let p = chars_of(pat);
    find_text(&v, &p).is_some()
}

pub proof fn lemma_first_unique(s: Seq<char>, pat: Seq<char>, i: int)
    requires
        first_at(s, pat, i),
    ensures
        contains_text(s, pat),
        split_at_text(s, pat) == Some((s.take(i), s.skip(i + pat.len()))),
{
    let k = choose|k: int| first_at(s, pat, k);
    assert(first_at(s, pat, k));
    if k < i {
        assert(!occurs_at(s, pat, k));
    } else if i < k {
        assert(!occurs_at(s, pat, i));
    }
}

/// The text before and after the first `pat`.
pub fn split_text(s: &str, pat: &str) -> (r: Option<(String, String)>)
    ensures
        r is Some <==> split_at_text(s@, pat@) is Some,
        r matches Some((a, b)) ==> Some((a@, b@)) == split_at_text(s@, pat@),
{
    let v = chars_of(s);
    let p = chars_of(pat);
    match find_text(&v, &p) {
        Some(i) => {
            proof {
                lemma_first_unique(s@, pat@, i as int);
            }
            let total: usize = v.len();
            let a = piece(&v, 0, i);
            let b = piece(&v, i + p.len(), total);
            proof {
                assert(a@ == s@.take(i as int));
                assert(b@ == s@.skip(i + pat@.len()));
            }
            Some((a, b))
        },
        None => None,
    }
}

/// Appends `t` to `s`.
pub fn push_text(s: &mut String, t: &str)
    ensures
        final(s)@ == old(s)@ + t@,
{
    s.append(t)
}

/// `pieces` one after another, `sep` between them.
pub fn join(pieces: &Vec<String>, sep: &str) -> (r: String)
    ensures
        r@ == joined(texts(pieces@), sep@),
{
    let mut out = String::new();
    let mut i: usize = 0;
    let ghost all = texts(pieces@);
    while i < pieces.len()
        invariant
            i <= pieces@.len(),
            all == texts(pieces@),
            out@ == joined(all.take(i as int), sep@),
        decreases pieces.len() - i,
    {
        proof {
            assert(all.take(i + 1).drop_last() == all.take(i as int));
            assert(all.take(i + 1).last() == pieces@[i as int]@);
        }
        if i > 0 {
            push_text(&mut out, sep);
        }
        push_text(&mut out, pieces[i].as_str());
        proof {
            if i == 0 {
                assert(out@ == pieces@[0]@);
            }
        }
        i = i + 1;
    }
    proof {
        assert(all.take(i as int) == all);
    }
    out
}

/// Whether `t` is one of `v`.
pub fn has_text(v: &Vec<String>, t: &str) -> (r: bool)
    ensures
        r == texts(v@).contains(t@),
{
    let mut i: usize = 0;
    while i < v.len()
        invariant
            i <= v@.len(),
            forall|j: int| 0 <= j < i ==> (#[trigger] v@[j])@ != t@,
        decreases v.len() - i,
    {
        if same(v[i].as_str(), t) {
            proof {
                assert(texts(v@)[i as int] == t@);
            }
            return true;
        }
        i = i + 1;
    }
    proof {
        if texts(v@).contains(t@) {
            let j = choose|j: int| 0 <= j < texts(v@).len() && texts(v@)[j] == t@;
            assert(v@[j]@ == t@);
        }
    }
    false
}

/// `n` times `c`.
pub open spec fn repeated(c: char, n: int) -> Seq<char> {
    Seq::new(
        if n > 0 {
            n as nat
        } else {
            0
        },
        |i: int| c,
    )
}

/// `n` times `c`.
pub fn repeat(c: char, n: usize) -> (r: String)
    ensures
        r@ == repeated(c, n as int),
{
    let mut out = String::new();
    let mut i: usize = 0;
    while i < n
        invariant
            i <= n,
            out@ == repeated(c, i as int),
        decreases n - i,
    {
        out.push(c);
        proof {
            assert(repeated(c, i as int).push(c) == repeated(c, i + 1));
        }
        i = i + 1;
    }
    out
}

/// `s` cut to `n` characters, the last of them an ellipsis where it was cut.
pub open spec fn truncated(s: Seq<char>, n: int) -> Seq<char> {
    if n <= 0 {
        seq![]
    } else if s.len() <= n {
        s
    } else {
        s.take(n - 1).push('\u{2026}')
    }
}

/// `s` cut to `n` characters.
pub fn truncate(s: &str, n: usize) -> (r: String)
    ensures
        r@ == truncated(s@, n as int),
        r@.len() <= n,
{
    if n == 0 {
        return String::new();
    }
    let v = chars_of(s);
    if v.len() <= n {
        string_of(v.as_slice())
    } else {
        let mut t = piece(&v, 0, n - 1);
        proof {
            assert(t@ == s@.take(n - 1));
        }
        t.push('\u{2026}');
        t
    }
}

/// `s` filled with spaces on the right to at least `n` characters.
pub open spec fn padded(s: Seq<char>, n: int) -> Seq<char> {
    s + repeated(' ', n - s.len())
}

/// `s` filled with spaces on the right to at least `n` characters.
pub fn pad(s: &str, n: usize) -> (r: String)
    ensures
        r@ == padded(s@, n as int),
{
    let len = s.unicode_len();
    let mut out: String = s.to_owned();
    if len < n {
        let fill = repeat(' ', n - len);
        push_text(&mut out, fill.as_str());
    } else {
        proof {
            assert(padded(s@, n as int) == s@);
        }
    }
    out
}

/// `c` in lower case where it is an ASCII capital.
pub open spec fn ascii_lower(c: char) -> char {
    if 'A' <= c <= 'Z' {
        ((c as u8 + 32) as u8) as char
    } else {
        c
    }
}

/// `s` with its ASCII capitals in lower case.
pub open spec fn ascii_lowered(s: Seq<char>) -> Seq<char> {
    s.map_values(|c: char| ascii_lower(c))
}

/// `s` with its ASCII capitals in lower case.
pub fn to_ascii_lowercase(s: &str) -> (r: String)
    ensures
        r@ == ascii_lowered(s@),
{
    let v = chars_of(s);
    let mut out = String::new();
    let mut i: usize = 0;
    while i < v.len()
        invariant
            i <= v@.len(),
            v@ == s@,
            out@ == ascii_lowered(s@).take(i as int),
        decreases v.len() - i,
    {
        let c = v[i];
        if 'A' <= c && c <= 'Z' {
            let b: u8 = c as u8;
            out.push((b + 32) as char);
        } else {
            out.push(c);
        }
        proof {
            assert(out@ == ascii_lowered(s@).take(i + 1));
        }
        i = i + 1;
    }
    proof {
        assert(ascii_lowered(s@).take(i as int) == ascii_lowered(s@));
    }
    out
}

// ---------------------------------------------------------------------------
// Order
// ---------------------------------------------------------------------------

/// `a` comes before `b`, or is equal to it, character by character.
pub open spec fn lex_le(a: Seq<char>, b: Seq<char>) -> bool
    decreases a.len(),
{
    if a.len() == 0 {
        true
    } else if b.len() == 0 {
        false
    } else if a[0] == b[0] {
        lex_le(a.drop_first(), b.drop_first())
    } else {
        a[0] < b[0]
    }
}

/// Whether `a` comes before `b`, or is equal to it.
pub fn text_le(a: &str, b: &str) -> (r: bool)
    ensures
        r == lex_le(a@, b@),
{
    let x = chars_of(a);
    let y = chars_of(b);
    let mut i: usize = 0;
    proof {
        assert(x@.skip(0) == x@);
        assert(y@.skip(0) == y@);
    }
    while i < x.len()
        invariant
            i <= x@.len(),
            i <= y@.len(),
            x@ == a@,
            y@ == b@,
            lex_le(a@, b@) == lex_le(x@.skip(i as int), y@.skip(i as int)),
        decreases x.len() - i,
    {
        proof {
            assert(x@.skip(i as int).drop_first() == x@.skip(i + 1));
        }
        if i >= y.len() {
            return false;
        }
        proof {
            assert(y@.skip(i as int).drop_first() == y@.skip(i + 1));
        }
        if x[i] != y[i] {
            return x[i] < y[i];
        }
        i = i + 1;
    }
    true
}

pub proof fn lemma_lex_total(a: Seq<char>, b: Seq<char>)
    ensures
        lex_le(a, b) || lex_le(b, a),
    decreases a.len(),
{
    if a.len() > 0 && b.len() > 0 && a[0] == b[0] {
        lemma_lex_total(a.drop_first(), b.drop_first());
    }
}

pub proof fn lemma_lex_antisymmetric(a: Seq<char>, b: Seq<char>)
    requires
        lex_le(a, b),
        lex_le(b, a),
    ensures
        a == b,
    decreases a.len(),
{
    if a.len() > 0 && b.len() > 0 {
        assert(a[0] == b[0]);
        lemma_lex_antisymmetric(a.drop_first(), b.drop_first());
        assert(a == seq![a[0]] + a.drop_first());
        assert(b == seq![b[0]] + b.drop_first());
    } else {
        assert(a == b);
    }
}

pub proof fn lemma_lex_transitive(a: Seq<char>, b: Seq<char>, c: Seq<char>)
    requires
        lex_le(a, b),
        lex_le(b, c),
    ensures
        lex_le(a, c),
    decreases a.len(),
{
    if a.len() > 0 && b.len() > 0 && c.len() > 0 && a[0] == b[0] && b[0] == c[0] {
        lemma_lex_transitive(a.drop_first(), b.drop_first(), c.drop_first());
    }
}

/// Each text comes before the next, and no two are equal.
pub open spec fn ascending(s: Seq<Seq<char>>) -> bool {
    forall|i: int, j: int|
        0 <= i < j < s.len() ==> lex_le(#[trigger] s[i], #[trigger] s[j]) && s[i] != s[j]
}

/// `r` holds the texts of `s`, each once, in ascending order.
pub open spec fn is_sorted_set(r: Seq<Seq<char>>, s: Seq<Seq<char>>) -> bool {
    &&& ascending(r)
    &&& forall|t: Seq<char>| #[trigger] r.contains(t) <==> s.contains(t)
}

/// The texts of `s`, each once, in ascending order.
pub open spec fn sorted_set(s: Seq<Seq<char>>) -> Seq<Seq<char>> {
    choose|r: Seq<Seq<char>>| is_sorted_set(r, s)
}

proof fn lemma_same_ascending(a: Seq<Seq<char>>, b: Seq<Seq<char>>)
    requires
        ascending(a),
        ascending(b),
        forall|t: Seq<char>| #[trigger] a.contains(t) <==> b.contains(t),
    ensures
        a == b,
    decreases a.len(),
{
    if a.len() == 0 {
        if b.len() > 0 {
            assert(b.contains(b[0]));
            assert(a.contains(b[0]));
        }
        assert(a =~= b);
    } else {
        let x = a.last();
        assert(a.contains(a[a.len() - 1]));
        assert(b.contains(x));
        let y = b.last();
        assert(b.contains(b[b.len() - 1]));
        assert(a.contains(y));
        let i = choose|i: int| 0 <= i < b.len() && b[i] == x;
        let j = choose|j: int| 0 <= j < a.len() && a[j] == y;
        if i < b.len() - 1 && j < a.len() - 1 {
            assert(lex_le(b[i], b[b.len() - 1]));
            assert(lex_le(a[j], a[a.len() - 1]));
            lemma_lex_antisymmetric(x, y);
            assert(b[i] != b[b.len() - 1]);
        }
        assert(x == y);
        let p = a.drop_last();
        let q = b.drop_last();
        assert forall|m: int, n: int| 0 <= m < n < p.len() implies lex_le(
            #[trigger] p[m],
            #[trigger] p[n],
        ) && p[m] != p[n] by {
            assert(lex_le(a[m], a[n]) && a[m] != a[n]);
        }
        assert forall|m: int, n: int| 0 <= m < n < q.len() implies lex_le(
            #[trigger] q[m],
            #[trigger] q[n],
        ) && q[m] != q[n] by {
            assert(lex_le(b[m], b[n]) && b[m] != b[n]);
        }
        assert forall|t: Seq<char>| #[trigger] p.contains(t) <==> q.contains(t) by {
            if p.contains(t) {
                let k = choose|k: int| 0 <= k < p.len() && p[k] == t;
                assert(a[k] == t && a[k] != a[a.len() - 1]);
                assert(a.contains(t));
                let n = choose|n: int| 0 <= n < b.len() && b[n] == t;
                assert(q[n] == t);
            }
            if q.contains(t) {
                let k = choose|k: int| 0 <= k < q.len() && q[k] == t;
                assert(b[k] == t && b[k] != b[b.len() - 1]);
                assert(b.contains(t));
                assert(a.contains(t));
                let n = choose|n: int| 0 <= n < a.len() && a[n] == t;
                assert(p[n] == t);
            }
        }
        lemma_same_ascending(p, q);
        assert(a =~= p.push(x));
        assert(b =~= q.push(y));
    }
}

/// There is only one ascending sequence of the texts of `s`.
pub proof fn lemma_sorted_set(r: Seq<Seq<char>>, s: Seq<Seq<char>>)
    requires
        is_sorted_set(r, s),
    ensures
        sorted_set(s) == r,
        is_sorted_set(sorted_set(s), s),
{
    lemma_same_ascending(sorted_set(s), r);
}

/// The texts of `v`, each once, in ascending order.
pub fn sorted_distinct(v: Vec<String>) -> (r: Vec<String>)
    ensures
        texts(r@) == sorted_set(texts(v@)),
        is_sorted_set(texts(r@), texts(v@)),
{
    let mut out: Vec<String> = Vec::new();
    let ghost all = texts(v@);
    let mut i: usize = 0;
    while i < v.len()
        invariant
            i <= v@.len(),
            all == texts(v@),
            ascending(texts(out@)),
            forall|t: Seq<char>| #[trigger]
                texts(out@).contains(t) <==> all.take(i as int).contains(t),
        decreases v.len() - i,
    {
        let ghost x = v@[i as int]@;
        let ghost before = texts(out@);
        let ghost done = all.take(i as int);
        let ghost grown = all.take(i + 1);
        assert(grown =~= done.push(x));
        let mut j: usize = 0;
        while j < out.len() && !text_le(v[i].as_str(), out[j].as_str())
            invariant
                i < v@.len(),
                x == v@[i as int]@,
                j <= out@.len(),
                before == texts(out@),
                forall|k: int| 0 <= k < j ==> !lex_le(x, #[trigger] before[k]),
            decreases out.len() - j,
        {
            j = j + 1;
        }
        if j >= out.len() || !same(out[j].as_str(), v[i].as_str()) {
            out.insert(j, v[i].clone());
            let ghost after = texts(out@);
            proof {
                assert(after =~= before.insert(j as int, x));
                assert forall|a: int, b: int| 0 <= a < b < after.len() implies lex_le(
                    #[trigger] after[a],
                    #[trigger] after[b],
                ) && after[a] != after[b] by {
                    if b == j {
                        assert(after[a] == before[a]);
                        lemma_lex_total(x, before[a]);
                    } else if a == j {
                        assert(after[b] == before[b - 1]);
                        if b - 1 > j {
                            assert(lex_le(before[j as int], before[b - 1]));
                            lemma_lex_transitive(x, before[j as int], before[b - 1]);
                            if x == before[b - 1] {
                                lemma_lex_antisymmetric(before[j as int], before[b - 1]);
                            }
                        }
                    } else {
                        let p = if a < j {
                            a
                        } else {
                            a - 1
                        };
                        let q = if b < j {
                            b
                        } else {
                            b - 1
                        };
                        assert(after[a] == before[p] && after[b] == before[q]);
                    }
                }
                assert forall|t: Seq<char>| #[trigger]
                    after.contains(t) <==> grown.contains(t) by {
                    assert(after[j as int] == x);
                    assert(grown.last() == x);
                    if after.contains(t) && t != x {
                        let k = choose|k: int| 0 <= k < after.len() && after[k] == t;
                        assert(before[if k < j {
                            k
                        } else {
                            k - 1
                        }] == t);
                        assert(before.contains(t));
                        let m = choose|m: int|
                            0 <= m < done.len() && done[m] == t;
                        assert(grown[m] == t);
                    }
                    if grown.contains(t) && t != x {
                        let m = choose|m: int|
                            0 <= m < grown.len() && grown[m] == t;
                        assert(done[m] == t);
                        assert(before.contains(t));
                        let k = choose|k: int| 0 <= k < before.len() && before[k] == t;
                        assert(after[if k < j {
                            k
                        } else {
                            k + 1
                        }] == t);
                    }
                }
            }
        } else {
            proof {
                assert(before[j as int] == x);
                assert forall|t: Seq<char>| #[trigger]
                    before.contains(t) <==> grown.contains(t) by {
                    if grown.contains(t) && t != x {
                        let m = choose|m: int|
                            0 <= m < grown.len() && grown[m] == t;
                        assert(done[m] == t);
                    }
                    if before.contains(t) {
                        let m = choose|m: int|
                            0 <= m < done.len() && done[m] == t;
                        assert(grown[m] == t);
                    }
                }
            }
        }
        i = i + 1;
    }
    assert(all.take(i as int) =~= all);
    proof {
        assert(is_sorted_set(texts(out@), all));
        lemma_sorted_set(texts(out@), all);
    }
    out
}

/// Lines of two texts, where the first ends its last line.
pub proof fn lemma_lines_add(a: Seq<char>, b: Seq<char>)
    requires
        a.len() == 0 || a.last() == '\n',
    ensures
        lines_of(a + b) == lines_of(a) + lines_of(b),
    decreases a.len(),
{
    if a.len() == 0 {
        assert(a + b =~= b);
        assert(lines_of(a) + lines_of(b) =~= lines_of(b));
    } else {
        let p = other_than('\n');
        lemma_run(a, p);
        let i = run(a, p) as int;
        if i == a.len() {
            assert(p(a[a.len() - 1]));
        }
        let s = a + b;
        assert forall|j: int| 0 <= j < i implies p(#[trigger] s[j]) by {
            assert(p(a[j]));
        }
        lemma_run_unique(s, p, i);
        assert(s.take(i) =~= a.take(i));
        assert(s.skip(i + 1) =~= a.skip(i + 1) + b);
        let t = a.skip(i + 1);
        assert(t.len() > 0 ==> t.last() == '\n');
        lemma_lines_add(t, b);
        assert(lines_of(s) =~= lines_of(a) + lines_of(b));
    }
}

/// What stands in a part of a text stands in the text.
pub proof fn lemma_contains_within(s: Seq<char>, part: Seq<char>, pat: Seq<char>)
    requires
        contains_text(s, part),
        contains_text(part, pat),
    ensures
        contains_text(s, pat),
{
    let i = choose|i: int| occurs_at(s, part, i);
    let j = choose|j: int| occurs_at(part, pat, j);
    assert(s.subrange(i + j, i + j + pat.len()) =~= part.subrange(j, j + pat.len())) by {
        assert(s.subrange(i, i + part.len()) == part);
        assert forall|x: int| 0 <= x < pat.len() implies s[i + j + x] == #[trigger] part[j + x] by {
            assert(s.subrange(i, i + part.len())[j + x] == s[i + j + x]);
        }
    }
    assert(occurs_at(s, pat, i + j));
}

/// What stands in the first or in the second of two texts stands in both
/// together.
pub proof fn lemma_contains_add(a: Seq<char>, b: Seq<char>, pat: Seq<char>)
    ensures
        contains_text(a, pat) ==> contains_text(a + b, pat),
        contains_text(b, pat) ==> contains_text(a + b, pat),
{
    if contains_text(a, pat) {
        let i = choose|i: int| occurs_at(a, pat, i);
        assert((a + b).subrange(i, i + pat.len()) =~= a.subrange(i, i + pat.len()));
        assert(occurs_at(a + b, pat, i));
    }
    if contains_text(b, pat) {
        let i = choose|i: int| occurs_at(b, pat, i);
        assert((a + b).subrange(a.len() + i, a.len() + i + pat.len()) =~= b.subrange(
            i,
            i + pat.len(),
        ));
        assert(occurs_at(a + b, pat, a.len() + i));
    }
}

/// A pattern without line feeds stands in one of two texts, where the first ends
/// its last line.
pub proof fn lemma_contains_split(a: Seq<char>, b: Seq<char>, pat: Seq<char>)
    requires
        a.len() == 0 || a.last() == '\n',
        pat.len() > 0,
        !pat.contains('\n'),
        contains_text(a + b, pat),
    ensures
        contains_text(a, pat) || contains_text(b, pat),
{
    let s = a + b;
    let n = pat.len() as int;
    let i = choose|i: int| occurs_at(s, pat, i);
    if i >= a.len() {
        assert(b.subrange(i - a.len(), i - a.len() + n) =~= s.subrange(i, i + n));
        assert(occurs_at(b, pat, i - a.len()));
    } else if i + n <= a.len() {
        assert(a.subrange(i, i + n) =~= s.subrange(i, i + n));
        assert(occurs_at(a, pat, i));
    } else {
        let k = a.len() - 1 - i;
        assert(s.subrange(i, i + n)[k] == a[a.len() - 1]);
        assert(pat[k] == '\n');
    }
}

/// Every line of a text stands in it.
pub proof fn lemma_line_within(s: Seq<char>, k: int)
    requires
        0 <= k < lines_of(s).len(),
    ensures
        contains_text(s, lines_of(s)[k]),
    decreases s.len(),
{
    let p = other_than('\n');
    lemma_run(s, p);
    let i = run(s, p) as int;
    if i < s.len() {
        let first = strip_cr(s.take(i));
        if k == 0 {
            assert(s.subrange(0, first.len() as int) =~= first);
            assert(occurs_at(s, first, 0));
        } else {
            let rest = s.skip(i + 1);
            lemma_line_within(rest, k - 1);
            assert(lines_of(s)[k] == lines_of(rest)[k - 1]);
            lemma_contains_add(s.take(i + 1), rest, lines_of(s)[k]);
            assert(s.take(i + 1) + rest =~= s);
        }
    } else {
        assert(s.subrange(0, s.len() as int) =~= s);
        assert(occurs_at(s, s, 0));
    }
}

/// Every sequence of texts has its texts in ascending order, each once.
pub proof fn lemma_sorted_set_exists(s: Seq<Seq<char>>)
    ensures
        is_sorted_set(sorted_set(s), s),
    decreases s.len(),
{
    if s.len() == 0 {
        let r = Seq::<Seq<char>>::empty();
        assert(is_sorted_set(r, s));
        lemma_sorted_set(r, s);
    } else {
        let front = s.drop_last();
        let x = s.last();
        lemma_sorted_set_exists(front);
        let before = sorted_set(front);
        assert forall|t: Seq<char>| #[trigger] s.contains(t) <==> front.contains(t) || t == x by {
            if s.contains(t) {
                let k = choose|k: int| 0 <= k < s.len() && s[k] == t;
                if k < front.len() {
                    assert(front[k] == t);
                }
            }
            if front.contains(t) {
                let k = choose|k: int| 0 <= k < front.len() && front[k] == t;
                assert(s[k] == t);
            }
            assert(s[s.len() - 1] == x);
        }
        if before.contains(x) {
            assert(is_sorted_set(before, s));
            lemma_sorted_set(before, s);
        } else {
            let p = |t: Seq<char>| lex_le(x, t);
            let j = crate::seqs::first_where(before, p) as int;
            crate::seqs::lemma_first_where(before, p);
            let after = before.insert(j, x);
            assert forall|a: int, b: int| 0 <= a < b < after.len() implies lex_le(
                #[trigger] after[a],
                #[trigger] after[b],
            ) && after[a] != after[b] by {
                if b == j {
                    assert(after[a] == before[a]);
                    assert(!p(before[a]));
                    lemma_lex_total(x, before[a]);
                    assert(before.contains(before[a]));
                } else if a == j {
                    assert(after[b] == before[b - 1]);
                    assert(p(before[j]));
                    assert(before.contains(before[b - 1]));
                    if b - 1 > j {
                        assert(lex_le(before[j], before[b - 1]));
                        lemma_lex_transitive(x, before[j], before[b - 1]);
                    }
                } else {
                    let c = if a < j {
                        a
                    } else {
                        a - 1
                    };
                    let d = if b < j {
                        b
                    } else {
                        b - 1
                    };
                    assert(after[a] == before[c] && after[b] == before[d]);
                }
            }
            assert forall|t: Seq<char>| #[trigger] after.contains(t) <==> s.contains(t) by {
                assert(after[j] == x);
                if after.contains(t) && t != x {
                    let k = choose|k: int| 0 <= k < after.len() && after[k] == t;
                    let c = if k < j {
                        k
                    } else {
                        k - 1
                    };
                    assert(before[c] == t);
                    assert(before.contains(t));
                }
                if before.contains(t) {
                    let k = choose|k: int| 0 <= k < before.len() && before[k] == t;
                    let c = if k < j {
                        k
                    } else {
                        k + 1
                    };
                    assert(after[c] == t);
                }
            }
            assert(is_sorted_set(after, s));
            lemma_sorted_set(after, s);
        }
    }
}

/// Texts are compared character by character, and what starts alike but is
/// shorter comes first.
pub proof fn texts_are_ordered_by_their_first_difference(
    common: Seq<char>,
    a: Seq<char>,
    b: Seq<char>,
)
    ensures
        lex_le(common, common + b),
        a.len() > 0 && b.len() > 0 && a[0] < b[0] ==> lex_le(common + a, common + b) && !lex_le(
            common + b,
            common + a,
        ),
    decreases common.len(),
{
    if common.len() > 0 {
        let rest = common.drop_first();
        texts_are_ordered_by_their_first_difference(rest, a, b);
        assert((common + a).drop_first() =~= rest + a);
        assert((common + b).drop_first() =~= rest + b);
    } else {
        assert(common + a =~= a);
        assert(common + b =~= b);
    }
}

// ---------------------------------------------------------------------------
// Laws
// ---------------------------------------------------------------------------

/// Trimming takes away the white space around a text and nothing of the text.
pub proof fn trimming_takes_the_white_space_around(
    pre: Seq<char>,
    core: Seq<char>,
    post: Seq<char>,
)
    requires
        forall|i: int| 0 <= i < pre.len() ==> is_space(#[trigger] pre[i]),
        forall|i: int| 0 <= i < post.len() ==> is_space(#[trigger] post[i]),
        core.len() > 0 ==> !is_space(core[0]) && !is_space(core.last()),
    ensures
        trimmed(pre + core + post) == core,
{
    let s = pre + core + post;
    let p = spaces();
    if core.len() > 0 {
        let k = pre.len() as int;
        assert forall|i: int| 0 <= i < k implies p(#[trigger] s[i]) by {
            assert(is_space(pre[i]));
        }
        assert(s[k] == core[0]);
        lemma_run_unique(s, p, k);
        let t = s.skip(k);
        assert(t =~= core + post);
        assert forall|i: int| t.len() - post.len() <= i < t.len() implies p(#[trigger] t[i]) by {
            assert(is_space(post[i - core.len()]));
        }
        assert(t[t.len() - post.len() - 1] == core.last());
        lemma_tail_run_unique(t, p, post.len() as int);
        assert(t.take(core.len() as int) =~= core);
    } else {
        assert forall|i: int| 0 <= i < s.len() implies p(#[trigger] s[i]) by {
            if i < pre.len() {
                assert(is_space(pre[i]));
            } else {
                assert(is_space(post[i - pre.len()]));
            }
        }
        lemma_run_unique(s, p, s.len() as int);
        assert(s.skip(s.len() as int) =~= core);
        lemma_tail_run_unique(core, p, 0);
        assert(core.take(0) =~= core);
    }
}

/// White space is white space: the blank, the tab and the line breaks are,
/// letters, digits and punctuation are not.
pub proof fn letters_are_no_white_space(c: char)
    ensures
        is_space(' ') && is_space('\t') && is_space('\n') && is_space('\r'),
        '!' <= c <= '~' ==> !is_space(c),
{
}

proof fn lemma_split_rejoined(s: Seq<char>, sep: char)
    ensures
        split_of(s, sep).len() > 0,
        forall|k: int|
            0 <= k < split_of(s, sep).len() ==> !(#[trigger] split_of(s, sep)[k]).contains(sep),
        front_joined(split_of(s, sep), sep) == s,
    decreases s.len(),
{
    let p = other_than(sep);
    lemma_run(s, p);
    let i = run(s, p) as int;
    let all = split_of(s, sep);
    if i < s.len() {
        let rest = s.skip(i + 1);
        lemma_split_rejoined(rest, sep);
        assert(all.drop_first() =~= split_of(rest, sep));
        assert(all[0] == s.take(i));
        assert(s =~= s.take(i) + seq![sep] + rest);
    } else {
        assert(all =~= seq![s]);
    }
    assert forall|k: int| 0 <= k < all.len() implies !(#[trigger] all[k]).contains(sep) by {
        if k == 0 {
            assert forall|j: int| 0 <= j < all[0].len() implies #[trigger] all[0][j] != sep by {
                assert(p(s[j]));
            }
        } else {
            assert(all[k] == split_of(s.skip(i + 1), sep)[k - 1]);
        }
    }
}

/// `pieces` one after another with `sep` between them, from the front.
spec fn front_joined(pieces: Seq<Seq<char>>, sep: char) -> Seq<char>
    decreases pieces.len(),
{
    if pieces.len() == 0 {
        seq![]
    } else if pieces.len() == 1 {
        pieces[0]
    } else {
        pieces[0] + seq![sep] + front_joined(pieces.drop_first(), sep)
    }
}

proof fn lemma_joined_from_front(pieces: Seq<Seq<char>>, sep: char)
    ensures
        front_joined(pieces, sep) == joined(pieces, seq![sep]),
    decreases pieces.len(),
{
    if pieces.len() >= 2 {
        let front = pieces.drop_last();
        let back = pieces.drop_first();
        let mid = back.drop_last();
        lemma_joined_from_front(front, sep);
        lemma_joined_from_front(back, sep);
        assert(front.drop_first() =~= mid);
        lemma_joined_from_front(mid, sep);
        if pieces.len() > 2 {
            assert(front[0] == pieces[0]);
            assert(joined(front, seq![sep]) == pieces[0] + seq![sep] + joined(mid, seq![sep]));
            assert(joined(back, seq![sep]) == joined(mid, seq![sep]) + seq![sep] + pieces.last());
            assert(front_joined(pieces, sep) =~= joined(pieces, seq![sep]));
        } else {
            assert(front =~= seq![pieces[0]]);
            assert(back =~= seq![pieces[1]]);
        }
    }
}

/// Splitting loses nothing: the pieces joined again are the text, and no piece
/// holds the separator.
pub proof fn splitting_can_be_undone(s: Seq<char>, sep: char)
    ensures
        joined(split_of(s, sep), seq![sep]) == s,
        forall|k: int|
            0 <= k < split_of(s, sep).len() ==> !(#[trigger] split_of(s, sep)[k]).contains(sep),
        split_of(s, sep).len() > 0,
{
    lemma_split_rejoined(s, sep);
    lemma_joined_from_front(split_of(s, sep), sep);
}

/// A text is split at its first separator, or at its last one.
pub proof fn splits_are_at_the_first_or_last(a: Seq<char>, sep: char, b: Seq<char>)
    ensures
        !a.contains(sep) ==> split_once_of(a + seq![sep] + b, sep) == Some((a, b)),
        !b.contains(sep) ==> rsplit_once_of(a + seq![sep] + b, sep) == Some((a, b)),
        !a.contains(sep) ==> split_once_of(a, sep) is None && rsplit_once_of(a, sep) is None,
{
    let s = a + seq![sep] + b;
    let p = other_than(sep);
    if !a.contains(sep) {
        assert forall|i: int| 0 <= i < a.len() implies p(#[trigger] s[i]) && p(a[i]) by {
            assert(a.contains(a[i]));
        }
        lemma_run_unique(s, p, a.len() as int);
        assert(s.take(a.len() as int) =~= a);
        assert(s.skip(a.len() as int + 1) =~= b);
        lemma_run_unique(a, p, a.len() as int);
        lemma_tail_run_unique(a, p, a.len() as int);
    }
    if !b.contains(sep) {
        assert forall|i: int| s.len() - b.len() <= i < s.len() implies p(#[trigger] s[i]) by {
            assert(b.contains(b[i - a.len() - 1]));
        }
        assert(s[s.len() - b.len() - 1] == sep);
        lemma_tail_run_unique(s, p, b.len() as int);
        assert(s.take(a.len() as int) =~= a);
        assert(s.skip(a.len() as int + 1) =~= b);
    }
}

/// A line goes up to its line feed, without a carriage return before that; the
/// rest of the text holds the lines after it.
pub proof fn lines_end_at_line_feeds(a: Seq<char>, rest: Seq<char>)
    requires
        !a.contains('\n'),
    ensures
        a.len() == 0 || a.last() != '\r' ==> lines_of(a + seq!['\n'] + rest) == seq![a] + lines_of(
            rest,
        ),
        lines_of(a + seq!['\r', '\n'] + rest) == seq![a] + lines_of(rest),
        a.len() > 0 ==> lines_of(a) == seq![a],
        lines_of(Seq::<char>::empty()).len() == 0,
{
    let p = other_than('\n');
    let s = a + seq!['\n'] + rest;
    let t = a + seq!['\r', '\n'] + rest;
    assert forall|i: int| 0 <= i < a.len() implies p(#[trigger] s[i]) && p(t[i]) && p(a[i]) by {
        assert(a.contains(a[i]));
    }
    lemma_run_unique(s, p, a.len() as int);
    assert(s.take(a.len() as int) =~= a);
    assert(s.skip(a.len() as int + 1) =~= rest);
    assert forall|i: int| 0 <= i < a.len() + 1 implies p(#[trigger] t[i]) by {
        if i < a.len() {
            assert(p(s[i]));
        }
    }
    lemma_run_unique(t, p, a.len() as int + 1);
    assert(t.take(a.len() as int + 1) =~= a.push('\r'));
    assert(a.push('\r').drop_last() =~= a);
    assert(t.skip(a.len() as int + 2) =~= rest);
    assert forall|i: int| 0 <= i < a.len() implies p(#[trigger] a[i]) by {
        assert(a.contains(a[i]));
    }
    lemma_run_unique(a, p, a.len() as int);
    lemma_run_unique(Seq::<char>::empty(), p, 0);
}

/// A text that fits stays as it is; of a longer one all but the last place is
/// kept, which tells that it was cut.
pub proof fn cutting_keeps_the_beginning(s: Seq<char>, n: int)
    requires
        n >= 1,
    ensures
        s.len() <= n ==> truncated(s, n) == s,
        s.len() > n ==> truncated(s, n).len() == n && truncated(s, n).last() == '…' && forall|i: int|
            0 <= i < n - 1 ==> #[trigger] truncated(s, n)[i] == s[i],
{
}

/// Padding adds blanks at the end, up to a length and not beyond it.
pub proof fn padding_fills_up(s: Seq<char>, n: int)
    ensures
        s.len() >= n ==> padded(s, n) == s,
        s.len() < n ==> padded(s, n).len() == n && padded(s, n).take(s.len() as int) == s
            && forall|i: int| s.len() <= i < n ==> #[trigger] padded(s, n)[i] == ' ',
{
    if s.len() >= n {
        assert(padded(s, n) =~= s);
    } else {
        assert(padded(s, n).take(s.len() as int) =~= s);
    }
}

/// The words of a text are what stands between white space: one word in front of
/// white space is the first, and the rest has the others.
pub proof fn words_stand_between_white_space(pre: Seq<char>, word: Seq<char>, rest: Seq<char>)
    requires
        forall|i: int| 0 <= i < pre.len() ==> is_space(#[trigger] pre[i]),
        word.len() > 0,
        forall|i: int| 0 <= i < word.len() ==> !is_space(#[trigger] word[i]),
        rest.len() == 0 || is_space(rest[0]),
    ensures
        words_of(pre + word + rest) == seq![word] + words_of(rest),
        words_of(pre).len() == 0,
{
    let s = pre + word + rest;
    assert forall|i: int| 0 <= i < pre.len() implies spaces()(#[trigger] s[i]) && spaces()(
        pre[i],
    ) by {
        assert(is_space(pre[i]));
    }
    assert(s[pre.len() as int] == word[0]);
    lemma_run_unique(s, spaces(), pre.len() as int);
    lemma_run_unique(pre, spaces(), pre.len() as int);
    let t = s.skip(pre.len() as int);
    assert(t =~= word + rest);
    assert forall|i: int| 0 <= i < word.len() implies inks()(#[trigger] t[i]) by {
        assert(!is_space(word[i]));
    }
    lemma_run_unique(t, inks(), word.len() as int);
    assert(t.take(word.len() as int) =~= word);
    assert(t.skip(word.len() as int) =~= rest);
}

/// Joining puts the separator between two pieces, and nowhere else.
pub proof fn joining_puts_the_separator_between(
    front: Seq<Seq<char>>,
    back: Seq<Seq<char>>,
    sep: Seq<char>,
)
    requires
        front.len() > 0,
        back.len() > 0,
    ensures
        joined(front + back, sep) == joined(front, sep) + sep + joined(back, sep),
        front.len() == 1 ==> joined(front, sep) == front[0],
    decreases back.len(),
{
    let all = front + back;
    if back.len() == 1 {
        assert(all.drop_last() =~= front);
    } else {
        let less = back.drop_last();
        joining_puts_the_separator_between(front, less, sep);
        assert(all.drop_last() =~= front + less);
        assert(joined(all, sep) == joined(front + less, sep) + sep + back.last());
        assert(joined(back, sep) == joined(less, sep) + sep + back.last());
        assert(joined(all, sep) =~= joined(front, sep) + sep + joined(back, sep));
    }
}

/// A text contains what stands anywhere in it, and is split there where it does
/// not stand earlier.
pub proof fn a_text_contains_its_parts(a: Seq<char>, pat: Seq<char>, b: Seq<char>)
    ensures
        contains_text(a + pat + b, pat),
        pat.len() > 0 && !a.contains(pat[0]) ==> split_at_text(a + pat + b, pat) == Some((a, b)),
        !contains_text(a, pat) ==> split_at_text(a, pat) is None,
{
    let s = a + pat + b;
    assert(s.subrange(a.len() as int, a.len() as int + pat.len() as int) =~= pat);
    assert(occurs_at(s, pat, a.len() as int));
    if pat.len() > 0 && !a.contains(pat[0]) {
        assert forall|j: int| 0 <= j < a.len() implies !#[trigger] occurs_at(s, pat, j) by {
            if occurs_at(s, pat, j) {
                assert(s.subrange(j, j + pat.len())[0] == s[j]);
                assert(a.contains(a[j]));
            }
        }
        assert(first_at(s, pat, a.len() as int));
        lemma_first_unique(s, pat, a.len() as int);
        assert(s.take(a.len() as int) =~= a);
        assert(s.skip(a.len() as int + pat.len()) =~= b);
    }
}

/// A text contains what stands in its middle.
pub proof fn lemma_contains_middle(s: Seq<char>, a: Seq<char>, pat: Seq<char>, b: Seq<char>)
    requires
        s =~= a + pat + b,
    ensures
        contains_text(s, pat),
{
    a_text_contains_its_parts(a, pat, b);
    assert(s == a + pat + b);
}

} // verus!
