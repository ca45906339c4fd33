//! Unix paths as text, taken apart without touching the filesystem.

use vstd::prelude::*;

use crate::text;
use crate::text::{joined, split_of, texts};

verus! {

/// A piece between slashes that names something.
pub open spec fn named() -> spec_fn(Seq<char>) -> bool {
    |s: Seq<char>| s.len() > 0 && s != seq!['.']
}

/// The names on the path `p`: its pieces between slashes but empty ones and `.`.
pub open spec fn names_of(p: Seq<char>) -> Seq<Seq<char>> {
    split_of(p, '/').filter(named())
}

/// `p` starts at the root.
pub open spec fn is_absolute(p: Seq<char>) -> bool {
    p.len() > 0 && p[0] == '/'
}

/// `p` without repeated and trailing slashes and without `.`; the root where
/// nothing is left.
pub open spec fn normal_form(p: Seq<char>) -> Seq<char> {
    let body = joined(names_of(p), seq!['/']);
    if is_absolute(p) {
        seq!['/'] + body
    } else if body.len() == 0 {
        seq!['/']
    } else {
        body
    }
}

/// How many components the path `p` has, the root being one.
pub open spec fn depth_of(p: Seq<char>) -> nat {
    names_of(p).len() + if is_absolute(p) {
        1nat
    } else {
        0nat
    }
}

/// `p` is `root` or lies under it, component by component.
pub open spec fn lies_under(p: Seq<char>, root: Seq<char>) -> bool {
    &&& is_absolute(p) == is_absolute(root)
    &&& names_of(root).is_prefix_of(names_of(p))
}

/// The last name on the path `p`; empty where there is none or it is `..`.
pub open spec fn file_name_of(p: Seq<char>) -> Seq<char> {
    let n = names_of(p);
    if n.len() == 0 || n.last() == seq!['.', '.'] {
        seq![]
    } else {
        n.last()
    }
}

/// `name` taken relative to `base`.
pub open spec fn under(base: Seq<char>, name: Seq<char>) -> Seq<char> {
    if base.len() == 0 || is_absolute(name) {
        name
    } else if base.last() == '/' {
        base + name
    } else {
        base.push('/') + name
    }
}

/// The names on the path `p`.
pub fn names(p: &str) -> (r: Vec<String>)
    ensures
        texts(r@) == names_of(p@),
{
    let pieces = text::split(p, '/');
    let ghost all = texts(pieces@);
    let mut out: Vec<String> = Vec::new();
    let mut i: usize = 0;
    proof {
        reveal(Seq::filter);
        assert(all.take(0).filter(named()) =~= Seq::<Seq<char>>::empty());
        assert(texts(out@) =~= Seq::<Seq<char>>::empty());
        reveal_strlit(".");
        assert("."@ =~= seq!['.']);
    }
    while i < pieces.len()
        invariant
            i <= pieces@.len(),
            all == texts(pieces@),
            "."@ == seq!['.'],
            texts(out@) == all.take(i as int).filter(named()),
        decreases pieces.len() - i,
    {
        let ghost before = texts(out@);
        proof {
            reveal(Seq::filter);
            assert(all.take(i + 1).drop_last() =~= all.take(i as int));
            assert(all.take(i + 1).last() == pieces@[i as int]@);
        }
        if !pieces[i].as_str().is_empty() && !text::same(pieces[i].as_str(), ".") {
            let name = pieces[i].clone();
            out.push(name);
            proof {
                assert(texts(out@) =~= before.push(pieces@[i as int]@));
            }
        }
        i = i + 1;
    }
    proof {
        assert(all.take(i as int) =~= all);
    }
    out
}

/// Whether `p` starts at the root.
pub fn absolute(p: &str) -> (r: bool)
    ensures
        r == is_absolute(p@),
{
    !p.is_empty() && p.get_char(0) == '/'
}

/// `p` without repeated and trailing slashes and without `.`.
pub fn normalise(p: &str) -> (r: String)
    ensures
        r@ == normal_form(p@),
{
    proof {
        reveal_strlit("/");
        assert("/"@ =~= seq!['/']);
    }
    let body = text::join(&names(p), "/");
    if absolute(p) {
        let mut out: String = "/".to_owned();
        text::push_text(&mut out, body.as_str());
        out
    } else if body.as_str().is_empty() {
        "/".to_owned()
    } else {
        body
    }
}

/// How many components the path `p` has.
pub fn depth(p: &str) -> (r: u128)
    ensures
        r == depth_of(p@),
{
    let n = names(p);
    let len: usize = n.len();
    proof {
        assert(texts(n@).len() == len);
    }
    if absolute(p) {
        (len as u128) + 1
    } else {
        len as u128
    }
}

/// Whether `p` is `root` or lies under it.
pub fn is_under(p: &str, root: &str) -> (r: bool)
    ensures
        r == lies_under(p@, root@),
{
    if absolute(p) != absolute(root) {
        return false;
    }
    let a = names(p);
    let b = names(root);
    let ghost x = texts(a@);
    let ghost y = texts(b@);
    if b.len() > a.len() {
        return false;
    }
    let mut i: usize = 0;
    while i < b.len()
        invariant
            x == texts(a@),
            y == texts(b@),
            x == names_of(p@),
            y == names_of(root@),
            b@.len() <= a@.len(),
            i <= b@.len(),
            forall|j: int| 0 <= j < i ==> #[trigger] y[j] == x[j],
        decreases b.len() - i,
    {
        if !text::same(a[i].as_str(), b[i].as_str()) {
            proof {
                assert(x[i as int] == a@[i as int]@);
                assert(y[i as int] == b@[i as int]@);
                assert(x.subrange(0, y.len() as int)[i as int] != y[i as int]);
            }
            return false;
        }
        proof {
            assert(x[i as int] == a@[i as int]@);
            assert(y[i as int] == b@[i as int]@);
        }
        i = i + 1;
    }
    proof {
        assert(x.subrange(0, y.len() as int) =~= y);
    }
    true
}

/// The last name on the path `p`.
pub fn file_name(p: &str) -> (r: String)
    ensures
        r@ == file_name_of(p@),
{
    let n = names(p);
    if n.len() == 0 {
        return String::new();
    }
    proof {
        reveal_strlit("..");
        assert(".."@ =~= seq!['.', '.']);
        assert(texts(n@).last() == n@[n@.len() - 1]@);
    }
    let last = n[n.len() - 1].clone();
    if text::same(last.as_str(), "..") {
        String::new()
    } else {
        last
    }
}

/// `name` taken relative to `base`.
pub fn join(base: &str, name: &str) -> (r: String)
    ensures
        r@ == under(base@, name@),
{
    if base.is_empty() || absolute(name) {
        return name.to_owned();
    }
    let mut out: String = base.to_owned();
    if base.get_char(base.unicode_len() - 1) != '/' {
        out.push('/');
    }
    text::push_text(&mut out, name);
    out
}

proof fn lemma_split_single(b: Seq<char>)
    requires
        !b.contains('/'),
    ensures
        split_of(b, '/') == seq![b],
{
    let p = text::other_than('/');
    assert forall|i: int| 0 <= i < b.len() implies p(#[trigger] b[i]) by {
        assert(b.contains(b[i]));
    }
    text::lemma_run_unique(b, p, b.len() as int);
}

proof fn lemma_split_end(x: Seq<char>, b: Seq<char>)
    requires
        !b.contains('/'),
    ensures
        split_of(x + seq!['/'] + b, '/') == split_of(x, '/').push(b),
    decreases x.len(),
{
    let p = text::other_than('/');
    let s = x + seq!['/'] + b;
    text::lemma_run(x, p);
    let i = text::run(x, p) as int;
    assert forall|j: int| 0 <= j < i implies p(#[trigger] s[j]) by {
        assert(p(x[j]));
    }
    assert(i < x.len() ==> s[i] == x[i]);
    text::lemma_run_unique(s, p, i);
    assert(s.take(i) =~= x.take(i));
    if i < x.len() {
        let rest = x.skip(i + 1);
        lemma_split_end(rest, b);
        assert(s.skip(i + 1) =~= rest + seq!['/'] + b);
        assert(split_of(s, '/') =~= split_of(x, '/').push(b));
    } else {
        assert(x.take(i) =~= x);
        assert(s.skip(i + 1) =~= b);
        lemma_split_single(b);
        assert(split_of(s, '/') =~= split_of(x, '/').push(b));
    }
}

proof fn lemma_split_pieces(s: Seq<char>)
    ensures
        forall|k: int| 0 <= k < split_of(s, '/').len() ==> !(#[trigger] split_of(s, '/')[k]).contains('/'),
    decreases s.len(),
{
    let p = text::other_than('/');
    text::lemma_run(s, p);
    let i = text::run(s, p) as int;
    let all = split_of(s, '/');
    if i < s.len() {
        lemma_split_pieces(s.skip(i + 1));
    }
    assert forall|k: int| 0 <= k < all.len() implies !(#[trigger] all[k]).contains('/') by {
        if k == 0 {
            assert(all[0] == if i < s.len() {
                s.take(i)
            } else {
                s
            });
            assert forall|j: int| 0 <= j < all[0].len() implies #[trigger] all[0][j] != '/' by {
                assert(p(s[j]));
            }
        } else {
            assert(all[k] == split_of(s.skip(i + 1), '/')[k - 1]);
        }
    }
}

proof fn lemma_split_joined(names: Seq<Seq<char>>)
    requires
        names.len() > 0,
        forall|k: int| 0 <= k < names.len() ==> !(#[trigger] names[k]).contains('/'),
    ensures
        split_of(joined(names, seq!['/']), '/') == names,
    decreases names.len(),
{
    if names.len() == 1 {
        assert(!names[0].contains('/'));
        lemma_split_single(names[0]);
        assert(seq![names[0]] =~= names);
    } else {
        let front = names.drop_last();
        assert forall|k: int| 0 <= k < front.len() implies !(#[trigger] front[k]).contains('/') by {
            assert(front[k] == names[k]);
        }
        lemma_split_joined(front);
        assert(!names[names.len() - 1].contains('/'));
        lemma_split_end(joined(front, seq!['/']), names.last());
        assert(front.push(names.last()) =~= names);
    }
}

proof fn lemma_all_named(names: Seq<Seq<char>>)
    requires
        forall|k: int| 0 <= k < names.len() ==> named()(#[trigger] names[k]),
    ensures
        names.filter(named()) == names,
    decreases names.len(),
{
    reveal(Seq::filter);
    if names.len() > 0 {
        let front = names.drop_last();
        assert forall|k: int| 0 <= k < front.len() implies named()(#[trigger] front[k]) by {
            assert(front[k] == names[k]);
        }
        lemma_all_named(front);
        assert(named()(names[names.len() - 1]));
        assert(front.push(names.last()) =~= names);
    } else {
        assert(names.filter(named()) =~= names);
    }
}

/// The names on a path hold no slash, and none is empty or `.`.
pub proof fn names_are_single_steps(p: Seq<char>)
    ensures
        forall|k: int|
            0 <= k < names_of(p).len() ==> !(#[trigger] names_of(p)[k]).contains('/') && names_of(
                p,
            )[k].len() > 0 && names_of(p)[k] != seq!['.'],
{
    let all = split_of(p, '/');
    let names = names_of(p);
    lemma_split_pieces(p);
    crate::seqs::lemma_filter_members(all, named());
    assert forall|k: int| 0 <= k < names.len() implies !(#[trigger] names[k]).contains('/')
        && names[k].len() > 0 && names[k] != seq!['.'] by {
        assert(names.contains(names[k]));
        assert(all.contains(names[k]));
        let j = choose|j: int| 0 <= j < all.len() && all[j] == names[k];
        assert(!all[j].contains('/'));
        assert(named()(names[k]));
    }
}

proof fn lemma_slash_in_front(s: Seq<char>)
    ensures
        names_of(seq!['/'] + s) == names_of(s),
{
    let p = text::other_than('/');
    let t = seq!['/'] + s;
    let none = Seq::<char>::empty();
    text::lemma_run_unique(t, p, 0);
    assert(t.take(0) =~= none);
    assert(t.skip(1) =~= s);
    let rest = split_of(s, '/');
    assert(split_of(t, '/') =~= seq![none] + rest);
    crate::seqs::lemma_filter_add(seq![none], rest, named());
    crate::seqs::lemma_filter_push(Seq::<Seq<char>>::empty(), named(), none);
    assert(Seq::<Seq<char>>::empty().push(none) =~= seq![none]);
    assert(seq![none].filter(named()) =~= seq![]);
    assert(Seq::<Seq<char>>::empty() + rest.filter(named()) =~= rest.filter(named()));
}

/// A path and its normal form have the same names in the same order, both start
/// at the root or neither does unless nothing is left, and the normal form is
/// its own normal form.
pub proof fn the_normal_form_keeps_the_names(p: Seq<char>)
    ensures
        names_of(normal_form(p)) == names_of(p),
        is_absolute(normal_form(p)) == (is_absolute(p) || names_of(p).len() == 0),
        normal_form(normal_form(p)) == normal_form(p),
{
    let names = names_of(p);
    let body = joined(names, seq!['/']);
    names_are_single_steps(p);
    if names.len() > 0 {
        assert forall|k: int| 0 <= k < names.len() implies named()(#[trigger] names[k]) by {}
        lemma_split_joined(names);
        lemma_all_named(names);
        assert(names_of(body) == names);
        lemma_slash_in_front(body);
        lemma_joined_starts(names);
    } else {
        let none = Seq::<char>::empty();
        assert(body =~= none);
        lemma_slash_in_front(none);
        lemma_split_single(none);
        crate::seqs::lemma_filter_push(Seq::<Seq<char>>::empty(), named(), none);
        assert(Seq::<Seq<char>>::empty().push(none) =~= seq![none]);
        assert(names_of(none) =~= seq![]);
        assert(seq!['/'] + none =~= seq!['/']);
    }
    assert(normal_form(p).len() > 0);
}

proof fn lemma_joined_starts(names: Seq<Seq<char>>)
    requires
        names.len() > 0,
        names[0].len() > 0,
    ensures
        joined(names, seq!['/']).len() > 0,
        joined(names, seq!['/'])[0] == names[0][0],
    decreases names.len(),
{
    if names.len() > 1 {
        lemma_joined_starts(names.drop_last());
    }
}

/// A path in normal form that lies under another one and is no deeper is that
/// other one.
pub proof fn lemma_same_depth(p: Seq<char>, root: Seq<char>)
    requires
        lies_under(normal_form(p), normal_form(root)),
        depth_of(normal_form(p)) <= depth_of(normal_form(root)),
    ensures
        normal_form(p) == normal_form(root),
{
    the_normal_form_keeps_the_names(p);
    the_normal_form_keeps_the_names(root);
    let a = names_of(normal_form(p));
    let b = names_of(normal_form(root));
    assert(a.subrange(0, b.len() as int) == b);
    assert(a =~= b);
}

/// A directory lies under itself, and so does whatever goes on from it behind a
/// slash.
pub proof fn a_path_lies_under_its_own_beginnings(root: Seq<char>, more: Seq<char>)
    requires
        root.len() > 0,
    ensures
        lies_under(root + seq!['/'] + more, root),
        lies_under(root, root),
{
    lemma_split_front(root, more);
    crate::seqs::lemma_filter_add(split_of(root, '/'), split_of(more, '/'), named());
    let s = root + seq!['/'] + more;
    assert(names_of(s) == names_of(root) + names_of(more));
    assert(names_of(s).subrange(0, names_of(root).len() as int) =~= names_of(root));
    assert(names_of(root).subrange(0, names_of(root).len() as int) =~= names_of(root));
}

proof fn lemma_split_front(a: Seq<char>, b: Seq<char>)
    ensures
        split_of(a + seq!['/'] + b, '/') == split_of(a, '/') + split_of(b, '/'),
    decreases a.len(),
{
    let p = text::other_than('/');
    let s = a + seq!['/'] + b;
    text::lemma_run(a, p);
    let i = text::run(a, p) as int;
    assert forall|j: int| 0 <= j < i implies p(#[trigger] s[j]) by {
        assert(p(a[j]));
    }
    assert(i < a.len() ==> s[i] == a[i]);
    text::lemma_run_unique(s, p, i);
    assert(s.take(i) =~= a.take(i));
    if i < a.len() {
        let rest = a.skip(i + 1);
        lemma_split_front(rest, b);
        assert(s.skip(i + 1) =~= rest + seq!['/'] + b);
        assert(split_of(s, '/') =~= split_of(a, '/') + split_of(b, '/'));
    } else {
        assert(a.take(i) =~= a);
        assert(s.skip(i + 1) =~= b);
        assert(split_of(s, '/') =~= split_of(a, '/') + split_of(b, '/'));
    }
}

/// Two different names under one directory lie not under each other, however
/// alike they start.
pub proof fn names_are_told_apart_whole(dir: Seq<char>, a: Seq<char>, b: Seq<char>)
    requires
        is_absolute(dir),
        a != b,
        a.len() > 0 && a != seq!['.'],
        b.len() > 0 && b != seq!['.'],
        !a.contains('/'),
        !b.contains('/'),
    ensures
        !lies_under(dir + seq!['/'] + a, dir + seq!['/'] + b),
{
    let x = dir + seq!['/'] + a;
    let y = dir + seq!['/'] + b;
    lemma_split_end(dir, a);
    lemma_split_end(dir, b);
    let d = split_of(dir, '/');
    crate::seqs::lemma_filter_push(d, named(), a);
    crate::seqs::lemma_filter_push(d, named(), b);
    let n = names_of(dir).len() as int;
    assert(names_of(x)[n] == a);
    assert(names_of(y)[n] == b);
    if names_of(y).is_prefix_of(names_of(x)) {
        assert(names_of(x).subrange(0, names_of(y).len() as int)[n] == names_of(y)[n]);
    }
}

/// Every piece behind a slash is one more name, but for nothing and `.`, which
/// change nothing.
pub proof fn a_name_is_one_step(dir: Seq<char>, name: Seq<char>)
    requires
        !name.contains('/'),
    ensures
        names_of(dir + seq!['/'] + name) == if name.len() == 0 || name == seq!['.'] {
            names_of(dir)
        } else {
            names_of(dir).push(name)
        },
        dir.len() > 0 && name.len() > 0 && name != seq!['.'] ==> depth_of(
            dir + seq!['/'] + name,
        ) == depth_of(dir) + 1,
{
    lemma_split_end(dir, name);
    crate::seqs::lemma_filter_push(split_of(dir, '/'), named(), name);
}

/// A single name is a path of one name.
pub proof fn lemma_names_of_single(name: Seq<char>)
    requires
        !name.contains('/'),
        name.len() > 0,
        name != seq!['.'],
    ensures
        names_of(name) == seq![name],
        name != seq!['.', '.'] ==> file_name_of(name) == name,
{
    lemma_split_single(name);
    crate::seqs::lemma_filter_push(Seq::<Seq<char>>::empty(), named(), name);
    assert(Seq::<Seq<char>>::empty().push(name) =~= seq![name]);
}

} // verus!
