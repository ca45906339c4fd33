//! Searching and filtering sequences.

use vstd::prelude::*;

verus! {

/// The first position of `s` whose element satisfies `p`, or its length.
pub open spec fn first_where<T>(s: Seq<T>, p: spec_fn(T) -> bool) -> nat
    decreases s.len(),
{
    if s.len() == 0 || p(s[0]) {
        0
    } else {
        1 + first_where(s.drop_first(), p)
    }
}

/// The last position of `s` whose element satisfies `p`, or -1.
pub open spec fn last_where<T>(s: Seq<T>, p: spec_fn(T) -> bool) -> int
    decreases s.len(),
{
    if s.len() == 0 {
        -1
    } else if p(s.last()) {
        s.len() - 1
    } else {
        last_where(s.drop_last(), p)
    }
}

/// The position that [`first_where`] gives is the first of its kind.
pub proof fn lemma_first_where<T>(s: Seq<T>, p: spec_fn(T) -> bool)
    ensures
        first_where(s, p) <= s.len(),
        forall|i: int| 0 <= i < first_where(s, p) ==> !p(#[trigger] s[i]),
        first_where(s, p) < s.len() ==> p(s[first_where(s, p) as int]),
    decreases s.len(),
{
    if s.len() != 0 && !p(s[0]) {
        let t = s.drop_first();
        lemma_first_where(t, p);
        assert forall|i: int| 0 <= i < first_where(s, p) implies !p(#[trigger] s[i]) by {
            if i > 0 {
                assert(s[i] == t[i - 1]);
            }
        }
    }
}

/// What characterises [`first_where`].
pub proof fn lemma_first_where_unique<T>(s: Seq<T>, p: spec_fn(T) -> bool, k: int)
    requires
        0 <= k <= s.len(),
        forall|i: int| 0 <= i < k ==> !p(#[trigger] s[i]),
        k < s.len() ==> p(s[k]),
    ensures
        first_where(s, p) == k,
{
    lemma_first_where(s, p);
    let r = first_where(s, p) as int;
    if r < k {
        assert(!p(s[r]));
    } else if k < r {
        assert(!p(s[k]));
    }
}

/// The position that [`last_where`] gives is the last of its kind.
pub proof fn lemma_last_where<T>(s: Seq<T>, p: spec_fn(T) -> bool)
    ensures
        -1 <= last_where(s, p) < s.len(),
        forall|i: int| last_where(s, p) < i < s.len() ==> !p(#[trigger] s[i]),
        last_where(s, p) >= 0 ==> p(s[last_where(s, p)]),
    decreases s.len(),
{
    if s.len() != 0 && !p(s.last()) {
        let t = s.drop_last();
        lemma_last_where(t, p);
        assert forall|i: int| last_where(s, p) < i < s.len() implies !p(#[trigger] s[i]) by {
            if i < s.len() - 1 {
                assert(s[i] == t[i]);
            }
        }
    }
}

/// What characterises [`last_where`].
pub proof fn lemma_last_where_unique<T>(s: Seq<T>, p: spec_fn(T) -> bool, k: int)
    requires
        -1 <= k < s.len(),
        forall|i: int| k < i < s.len() ==> !p(#[trigger] s[i]),
        k >= 0 ==> p(s[k]),
    ensures
        last_where(s, p) == k,
{
    lemma_last_where(s, p);
    let r = last_where(s, p);
    if r < k {
        assert(!p(s[k]));
    } else if k < r {
        assert(!p(s[r]));
    }
}

/// Searching and mapping commute where the tests agree.
pub proof fn lemma_first_where_map<T, U>(
    s: Seq<T>,
    f: spec_fn(T) -> U,
    p: spec_fn(T) -> bool,
    q: spec_fn(U) -> bool,
)
    requires
        forall|x: T| #[trigger] p(x) == q(f(x)),
    ensures
        first_where(s, p) == first_where(s.map_values(f), q),
{
    lemma_first_where(s, p);
    let k = first_where(s, p) as int;
    let m = s.map_values(f);
    assert forall|i: int| 0 <= i < k implies !q(#[trigger] m[i]) by {
        assert(!p(s[i]));
    }
    if k < s.len() {
        assert(p(s[k]));
    }
    lemma_first_where_unique(m, q, k);
}

/// Filtering one element further.
pub proof fn lemma_filter_step<T>(s: Seq<T>, p: spec_fn(T) -> bool, i: int)
    requires
        0 <= i < s.len(),
    ensures
        s.take(i + 1).filter(p) == if p(s[i]) {
            s.take(i).filter(p).push(s[i])
        } else {
            s.take(i).filter(p)
        },
        s.take(0).filter(p) == Seq::<T>::empty(),
        s.take(s.len() as int) == s,
{
    reveal(Seq::filter);
    assert(s.take(i + 1).drop_last() =~= s.take(i));
    assert(s.take(0).filter(p) =~= Seq::<T>::empty());
    assert(s.take(s.len() as int) =~= s);
}

/// Filtering a sequence that grew by one element.
pub proof fn lemma_filter_push<T>(s: Seq<T>, p: spec_fn(T) -> bool, x: T)
    ensures
        s.push(x).filter(p) == if p(x) {
            s.filter(p).push(x)
        } else {
            s.filter(p)
        },
        Seq::<T>::empty().filter(p) == Seq::<T>::empty(),
{
    reveal(Seq::filter);
    assert(s.push(x).drop_last() =~= s);
    assert(Seq::<T>::empty().filter(p) =~= Seq::<T>::empty());
}

/// Filtering an extended sequence filters both parts.
pub proof fn lemma_filter_add<T>(a: Seq<T>, b: Seq<T>, p: spec_fn(T) -> bool)
    ensures
        (a + b).filter(p) == a.filter(p) + b.filter(p),
    decreases b.len(),
{
    reveal(Seq::filter);
    if b.len() == 0 {
        assert(a + b =~= a);
        assert(a.filter(p) + b.filter(p) =~= a.filter(p));
    } else {
        let c = b.drop_last();
        lemma_filter_add(a, c, p);
        assert((a + b).drop_last() =~= a + c);
        assert((a + b).last() == b.last());
        assert((a.filter(p) + c.filter(p)).push(b.last()) =~= a.filter(p) + c.filter(p).push(
            b.last(),
        ));
    }
}

/// What a filter lets through satisfies it and stood in the sequence.
pub proof fn lemma_filter_members<T>(s: Seq<T>, p: spec_fn(T) -> bool)
    ensures
        s.filter(p).len() <= s.len(),
        forall|i: int| 0 <= i < s.filter(p).len() ==> p(#[trigger] s.filter(p)[i]),
        forall|x: T| #[trigger] s.filter(p).contains(x) <==> s.contains(x) && p(x),
    decreases s.len(),
{
    reveal(Seq::filter);
    if s.len() > 0 {
        let t = s.drop_last();
        lemma_filter_members(t, p);
        let f = s.filter(p);
        let g = t.filter(p);
        assert forall|i: int| 0 <= i < f.len() implies p(#[trigger] f[i]) by {
            if i < g.len() {
                assert(f[i] == g[i]);
                assert(p(g[i]));
            }
        }
        assert forall|x: T| #[trigger] f.contains(x) <==> s.contains(x) && p(x) by {
            if f.contains(x) {
                let i = choose|i: int| 0 <= i < f.len() && f[i] == x;
                assert(p(f[i]));
                if i < g.len() {
                    assert(g[i] == x);
                    assert(g.contains(x));
                    let j = choose|j: int| 0 <= j < t.len() && t[j] == x;
                    assert(s[j] == x);
                } else {
                    assert(s[s.len() - 1] == x);
                }
            }
            if s.contains(x) && p(x) {
                let j = choose|j: int| 0 <= j < s.len() && s[j] == x;
                if j < t.len() {
                    assert(t[j] == x);
                    assert(g.contains(x));
                    let i = choose|i: int| 0 <= i < g.len() && g[i] == x;
                    assert(f[i] == x);
                } else {
                    assert(f[f.len() - 1] == x);
                }
            }
        }
    }
}

/// Filtering and mapping commute where the filters agree.
pub proof fn lemma_filter_map<T, U>(
    s: Seq<T>,
    f: spec_fn(T) -> U,
    p: spec_fn(T) -> bool,
    q: spec_fn(U) -> bool,
)
    requires
        forall|x: T| #[trigger] p(x) == q(f(x)),
    ensures
        s.filter(p).map_values(f) == s.map_values(f).filter(q),
    decreases s.len(),
{
    reveal(Seq::filter);
    let m = s.map_values(f);
    if s.len() == 0 {
        assert(s.filter(p).map_values(f) =~= m.filter(q));
    } else {
        let t = s.drop_last();
        lemma_filter_map(t, f, p, q);
        assert(m.drop_last() =~= t.map_values(f));
        assert(m.last() == f(s.last()));
        assert(p(s.last()) == q(f(s.last())));
        if p(s.last()) {
            assert(t.filter(p).push(s.last()).map_values(f) =~= t.filter(p).map_values(f).push(
                f(s.last()),
            ));
        }
    }
}

/// The first position of `v` whose element `test` accepts, or its length.
pub fn find_where<T>(
    v: &Vec<T>,
    test: impl Fn(&T) -> bool,
    Ghost(p): Ghost<spec_fn(T) -> bool>,
) -> (r: usize)
    requires
        forall|a: &T| #[trigger] test.requires((a,)),
        forall|a: &T, b: bool| #[trigger] test.ensures((a,), b) ==> b == p(*a),
    ensures
        r == first_where(v@, p),
        r <= v@.len(),
{
    let mut i: usize = 0;
    while i < v.len()
        invariant
            i <= v@.len(),
            forall|j: int| 0 <= j < i ==> !p(#[trigger] v@[j]),
            forall|a: &T| #[trigger] test.requires((a,)),
            forall|a: &T, b: bool| #[trigger] test.ensures((a,), b) ==> b == p(*a),
        decreases v.len() - i,
    {
        if test(&v[i]) {
            proof {
                lemma_first_where_unique(v@, p, i as int);
            }
            return i;
        }
        i = i + 1;
    }
    proof {
        lemma_first_where_unique(v@, p, i as int);
    }
    i
}

/// The elements of `v` that `keep` accepts, in their order.
pub fn retain<T>(
    v: Vec<T>,
    keep: impl Fn(&T) -> bool,
    Ghost(p): Ghost<spec_fn(T) -> bool>,
) -> (r: Vec<T>)
    requires
        forall|a: &T| #[trigger] keep.requires((a,)),
        forall|a: &T, b: bool| #[trigger] keep.ensures((a,), b) ==> b == p(*a),
    ensures
        r@ == v@.filter(p),
{
    let mut v = v;
    let ghost s = v@;
    let ghost mut k: int = 0;
    let mut i: usize = 0;
    proof {
        lemma_filter_push(s, p, arbitrary());
        assert(s.take(0) =~= Seq::<T>::empty());
        assert(v@.take(0) =~= Seq::<T>::empty());
        assert(v@.skip(0) =~= s.skip(0));
    }
    while i < v.len()
        invariant
            i <= v@.len(),
            0 <= k <= s.len(),
            v@.len() - i == s.len() - k,
            v@.take(i as int) == s.take(k).filter(p),
            v@.skip(i as int) == s.skip(k),
            forall|a: &T| #[trigger] keep.requires((a,)),
            forall|a: &T, b: bool| #[trigger] keep.ensures((a,), b) ==> b == p(*a),
        decreases v.len() - i,
    {
        let ghost before = v@;
        proof {
            lemma_filter_step(s, p, k);
            assert(before[i as int] == before.skip(i as int)[0]);
            assert(s[k] == s.skip(k)[0]);
            assert(s.skip(k + 1) =~= s.skip(k).skip(1));
        }
        if keep(&v[i]) {
            proof {
                assert(v@.take(i + 1) =~= v@.take(i as int).push(v@[i as int]));
                assert(v@.skip(i + 1) =~= v@.skip(i as int).skip(1));
            }
            i = i + 1;
        } else {
            let _ = v.remove(i);
            proof {
                assert(v@.take(i as int) =~= before.take(i as int));
                assert(v@.skip(i as int) =~= before.skip(i as int).skip(1));
            }
        }
        proof {
            k = k + 1;
        }
    }
    proof {
        assert(v@.take(i as int) =~= v@);
        assert(s.take(k) =~= s);
    }
    v
}

} // verus!
