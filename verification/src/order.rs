//! Stable sorting by a given order.

use vstd::prelude::*;

verus! {

/// `s` with `x` placed behind the last element that may stand before it.
pub open spec fn placed<T>(s: Seq<T>, x: T, le: spec_fn(T, T) -> bool) -> Seq<T>
    decreases s.len(),
{
    if s.len() == 0 {
        seq![x]
    } else if le(s.last(), x) {
        s.push(x)
    } else {
        placed(s.drop_last(), x, le).push(s.last())
    }
}

/// The elements of `s` in the order `le`; elements that may stand either way
/// keep the order that they have in `s`.
pub open spec fn sorted<T>(s: Seq<T>, le: spec_fn(T, T) -> bool) -> Seq<T>
    decreases s.len(),
{
    if s.len() == 0 {
        s
    } else {
        placed(sorted(s.drop_last(), le), s.last(), le)
    }
}

/// Every earlier element of `s` may stand before every later one.
pub open spec fn in_order<T>(s: Seq<T>, le: spec_fn(T, T) -> bool) -> bool {
    forall|i: int, j: int| 0 <= i < j < s.len() ==> le(#[trigger] s[i], #[trigger] s[j])
}

/// `le` compares any two elements, and is transitive.
pub open spec fn total_order<T>(le: spec_fn(T, T) -> bool) -> bool {
    &&& forall|a: T, b: T| #[trigger] le(a, b) || le(b, a)
    &&& forall|a: T, b: T, c: T| #[trigger] le(a, b) && #[trigger] le(b, c) ==> le(a, c)
}

proof fn lemma_placed<T>(s: Seq<T>, x: T, le: spec_fn(T, T) -> bool, j: int)
    requires
        0 <= j <= s.len(),
        j > 0 ==> le(s[j - 1], x),
        forall|k: int| j <= k < s.len() ==> !le(#[trigger] s[k], x),
    ensures
        placed(s, x, le) == s.take(j).push(x) + s.skip(j),
    decreases s.len(),
{
    if s.len() == 0 {
        assert(placed(s, x, le) =~= s.take(j).push(x) + s.skip(j));
    } else if j == s.len() {
        assert(placed(s, x, le) =~= s.take(j).push(x) + s.skip(j));
    } else {
        let t = s.drop_last();
        assert(!le(s[s.len() - 1], x));
        assert forall|k: int| j <= k < t.len() implies !le(#[trigger] t[k], x) by {
            assert(t[k] == s[k]);
        }
        assert(j > 0 ==> t[j - 1] == s[j - 1]);
        lemma_placed(t, x, le, j);
        assert((t.take(j).push(x) + t.skip(j)).push(s.last()) =~= s.take(j).push(x) + s.skip(j));
    }
}

/// Sorts `v` by `before`.
pub fn sort<T>(v: Vec<T>, before: impl Fn(&T, &T) -> bool, Ghost(le): Ghost<spec_fn(T, T) -> bool>) -> (r:
    Vec<T>)
    requires
        forall|a: &T, b: &T| #[trigger] before.requires((a, b)),
        forall|a: &T, b: &T, c: bool| #[trigger] before.ensures((a, b), c) ==> c == le(*a, *b),
    ensures
        r@ == sorted(v@, le),
{
    let mut v = v;
    let ghost s = v@;
    let mut i: usize = 0;
    proof {
        assert(v@.take(0) =~= sorted(s.take(0), le));
    }
    while i < v.len()
        invariant
            i <= v@.len(),
            v@.len() == s.len(),
            v@.take(i as int) == sorted(s.take(i as int), le),
            v@.skip(i as int) == s.skip(i as int),
            forall|a: &T, b: &T| #[trigger] before.requires((a, b)),
            forall|a: &T, b: &T, c: bool| #[trigger] before.ensures((a, b), c) ==> c == le(*a, *b),
        decreases v.len() - i,
    {
        let ghost head = v@.take(i as int);
        let ghost x = v@[i as int];
        let mut j: usize = i;
        let mut go = true;
        while go && j > 0
            invariant
                j <= i < v@.len(),
                head == v@.take(i as int),
                x == v@[i as int],
                !go ==> j > 0 && le(head[j - 1], x),
                forall|k: int| j <= k < i ==> !le(#[trigger] head[k], x),
                forall|a: &T, b: &T| #[trigger] before.requires((a, b)),
                forall|a: &T, b: &T, c: bool| #[trigger]
                    before.ensures((a, b), c) ==> c == le(*a, *b),
            decreases j + (if go {
                1int
            } else {
                0
            }),
        {
            if before(&v[j - 1], &v[i]) {
                go = false;
            } else {
                j = j - 1;
            }
        }
        proof {
            lemma_placed(head, x, le, j as int);
            assert(s.take(i + 1).drop_last() =~= s.take(i as int));
            assert(s.take(i + 1).last() == s[i as int]);
            assert(s.skip(i as int)[0] == v@.skip(i as int)[0]);
            assert(x == s[i as int]);
        }
        let ghost prev = v@;
        let y = v.remove(i);
        v.insert(j, y);
        proof {
            assert(v@.take(i + 1) =~= head.take(j as int).push(x) + head.skip(j as int));
            assert forall|k: int| 0 <= k < v@.skip(i + 1).len() implies #[trigger] v@.skip(i + 1)[k]
                == s.skip(i + 1)[k] by {
                assert(prev.skip(i as int)[k + 1] == s.skip(i as int)[k + 1]);
            }
            assert(v@.skip(i + 1) =~= s.skip(i + 1));
        }
        i = i + 1;
    }
    proof {
        assert(v@.take(i as int) =~= v@);
        assert(s.take(i as int) =~= s);
    }
    v
}

proof fn lemma_placed_members<T>(s: Seq<T>, x: T, le: spec_fn(T, T) -> bool)
    ensures
        placed(s, x, le).len() == s.len() + 1,
        placed(s, x, le).to_multiset() == s.to_multiset().insert(x),
    decreases s.len(),
{
    broadcast use vstd::seq_lib::group_to_multiset_ensures;

    if s.len() == 0 {
        assert(seq![x] =~= s.push(x));
    } else if !le(s.last(), x) {
        lemma_placed_members(s.drop_last(), x, le);
        assert(s =~= s.drop_last().push(s.last()));
        assert(s.to_multiset() =~= s.drop_last().to_multiset().insert(s.last()));
        assert(placed(s, x, le).to_multiset() =~= s.to_multiset().insert(x));
    }
}

/// Sorting keeps the elements, each as often as it occurs.
pub proof fn sorting_keeps_the_elements<T>(s: Seq<T>, le: spec_fn(T, T) -> bool)
    ensures
        sorted(s, le).len() == s.len(),
        sorted(s, le).to_multiset() == s.to_multiset(),
        forall|x: T| sorted(s, le).contains(x) <==> s.contains(x),
    decreases s.len(),
{
    broadcast use vstd::seq_lib::group_to_multiset_ensures;

    if s.len() > 0 {
        sorting_keeps_the_elements(s.drop_last(), le);
        lemma_placed_members(sorted(s.drop_last(), le), s.last(), le);
        assert(s =~= s.drop_last().push(s.last()));
    }
    assert forall|x: T| sorted(s, le).contains(x) <==> s.contains(x) by {
        assert(sorted(s, le).contains(x) <==> sorted(s, le).to_multiset().count(x) > 0);
        assert(s.contains(x) <==> s.to_multiset().count(x) > 0);
    }
}

proof fn lemma_placed_in_order<T>(s: Seq<T>, x: T, le: spec_fn(T, T) -> bool)
    requires
        total_order(le),
        in_order(s, le),
    ensures
        in_order(placed(s, x, le), le),
        forall|e: T| #[trigger] placed(s, x, le).contains(e) ==> s.contains(e) || e == x,
    decreases s.len(),
{
    let r = placed(s, x, le);
    lemma_placed_members(s, x, le);
    broadcast use vstd::seq_lib::group_to_multiset_ensures;

    assert forall|e: T| #[trigger] r.contains(e) implies s.contains(e) || e == x by {
        assert(r.to_multiset().count(e) > 0);
        if e != x {
            assert(s.to_multiset().count(e) > 0);
        }
    }
    if s.len() == 0 {
    } else if le(s.last(), x) {
        assert forall|i: int, j: int| 0 <= i < j < r.len() implies le(
            #[trigger] r[i],
            #[trigger] r[j],
        ) by {
            if j == s.len() {
                if i < s.len() - 1 {
                    assert(le(s[i], s[s.len() - 1]));
                }
            }
        }
    } else {
        let t = s.drop_last();
        assert(in_order(t, le)) by {
            assert forall|i: int, j: int| 0 <= i < j < t.len() implies le(
                #[trigger] t[i],
                #[trigger] t[j],
            ) by {
                assert(le(s[i], s[j]));
            }
        }
        lemma_placed_in_order(t, x, le);
        let q = placed(t, x, le);
        assert forall|i: int, j: int| 0 <= i < j < r.len() implies le(
            #[trigger] r[i],
            #[trigger] r[j],
        ) by {
            if j == r.len() - 1 {
                assert(r[i] == q[i]);
                assert(q.contains(q[i]));
                if q[i] == x {
                    assert(le(x, s.last()) || le(s.last(), x));
                } else {
                    let k = choose|k: int| 0 <= k < t.len() && t[k] == q[i];
                    assert(le(s[k], s[s.len() - 1]));
                }
            } else {
                assert(le(q[i], q[j]));
            }
        }
    }
}

/// What sorting gives is in order.
pub proof fn sorting_gives_an_order<T>(s: Seq<T>, le: spec_fn(T, T) -> bool)
    requires
        total_order(le),
    ensures
        in_order(sorted(s, le), le),
    decreases s.len(),
{
    if s.len() > 0 {
        sorting_gives_an_order(s.drop_last(), le);
        lemma_placed_in_order(sorted(s.drop_last(), le), s.last(), le);
    }
}

proof fn lemma_placed_stable<T>(s: Seq<T>, x: T, le: spec_fn(T, T) -> bool, p: spec_fn(T) -> bool)
    requires
        forall|a: T, b: T| #[trigger] p(a) && #[trigger] p(b) ==> le(a, b),
    ensures
        placed(s, x, le).filter(p) == s.push(x).filter(p),
    decreases s.len(),
{
    reveal(Seq::filter);
    assert(s.push(x).drop_last() =~= s);
    if s.len() == 0 {
        assert(seq![x] =~= s.push(x));
    } else if !le(s.last(), x) {
        let t = s.drop_last();
        lemma_placed_stable(t, x, le, p);
        assert(placed(s, x, le).drop_last() =~= placed(t, x, le));
        assert(t.push(x).drop_last() =~= t);
        assert(!(p(s.last()) && p(x)));
        let q = placed(t, x, le);
        assert(placed(s, x, le) == q.push(s.last()));
        assert(q.push(s.last()).filter(p) == if p(s.last()) {
            q.filter(p).push(s.last())
        } else {
            q.filter(p)
        });
        assert(t.push(x).filter(p) == if p(x) {
            t.filter(p).push(x)
        } else {
            t.filter(p)
        });
        assert(s.filter(p) == if p(s.last()) {
            t.filter(p).push(s.last())
        } else {
            t.filter(p)
        });
    }
}

/// Sorting is stable: elements that may stand either way among each other keep
/// their order.
pub proof fn sorting_is_stable<T>(s: Seq<T>, le: spec_fn(T, T) -> bool, p: spec_fn(T) -> bool)
    requires
        forall|a: T, b: T| #[trigger] p(a) && #[trigger] p(b) ==> le(a, b),
    ensures
        sorted(s, le).filter(p) == s.filter(p),
    decreases s.len(),
{
    reveal(Seq::filter);
    if s.len() > 0 {
        let t = s.drop_last();
        sorting_is_stable(t, le, p);
        lemma_placed_stable(sorted(t, le), s.last(), le, p);
        assert(sorted(t, le).push(s.last()).drop_last() =~= sorted(t, le));
    }
}

proof fn lemma_placed_map<T, U>(
    s: Seq<T>,
    x: T,
    f: spec_fn(T) -> U,
    le: spec_fn(T, T) -> bool,
    le2: spec_fn(U, U) -> bool,
)
    requires
        forall|a: T, b: T| #[trigger] le(a, b) == le2(f(a), f(b)),
    ensures
        placed(s, x, le).map_values(f) == placed(s.map_values(f), f(x), le2),
    decreases s.len(),
{
    let m = s.map_values(f);
    if s.len() == 0 {
        assert(placed(s, x, le).map_values(f) =~= placed(m, f(x), le2));
    } else {
        assert(m.last() == f(s.last()));
        assert(m.drop_last() =~= s.drop_last().map_values(f));
        assert(le(s.last(), x) == le2(f(s.last()), f(x)));
        if le(s.last(), x) {
            assert(s.push(x).map_values(f) =~= m.push(f(x)));
        } else {
            lemma_placed_map(s.drop_last(), x, f, le, le2);
            assert(placed(s, x, le).map_values(f) =~= placed(s.drop_last(), x, le).map_values(
                f,
            ).push(f(s.last())));
        }
    }
}

/// Sorting commutes with a map that keeps the order.
pub proof fn lemma_sorted_map<T, U>(
    s: Seq<T>,
    f: spec_fn(T) -> U,
    le: spec_fn(T, T) -> bool,
    le2: spec_fn(U, U) -> bool,
)
    requires
        forall|a: T, b: T| #[trigger] le(a, b) == le2(f(a), f(b)),
    ensures
        sorted(s, le).map_values(f) == sorted(s.map_values(f), le2),
    decreases s.len(),
{
    let m = s.map_values(f);
    if s.len() == 0 {
        assert(sorted(s, le).map_values(f) =~= sorted(m, le2));
    } else {
        assert(m.last() == f(s.last()));
        assert(m.drop_last() =~= s.drop_last().map_values(f));
        lemma_sorted_map(s.drop_last(), f, le, le2);
        lemma_placed_map(sorted(s.drop_last(), le), s.last(), f, le, le2);
    }
}

proof fn lemma_placed_pairwise<T>(
    s: Seq<T>,
    x: T,
    le: spec_fn(T, T) -> bool,
    rel: spec_fn(T, T) -> bool,
)
    requires
        in_order(s, rel),
        forall|a: T, b: T| #[trigger] rel(a, b) ==> rel(b, a),
        forall|i: int| 0 <= i < s.len() ==> rel(#[trigger] s[i], x),
    ensures
        in_order(placed(s, x, le), rel),
    decreases s.len(),
{
    let r = placed(s, x, le);
    if s.len() > 0 && !le(s.last(), x) {
        let t = s.drop_last();
        assert forall|i: int, j: int| 0 <= i < j < t.len() implies rel(
            #[trigger] t[i],
            #[trigger] t[j],
        ) by {
            assert(rel(s[i], s[j]));
        }
        assert forall|i: int| 0 <= i < t.len() implies rel(#[trigger] t[i], x) by {
            assert(rel(s[i], x));
        }
        lemma_placed_pairwise(t, x, le, rel);
        let q = placed(t, x, le);
        lemma_placed_members(t, x, le);
        assert forall|i: int, j: int| 0 <= i < j < r.len() implies rel(
            #[trigger] r[i],
            #[trigger] r[j],
        ) by {
            if j == r.len() - 1 {
                broadcast use vstd::seq_lib::group_to_multiset_ensures;

                assert(r[i] == q[i] && q.contains(q[i]));
                assert(q.to_multiset().count(q[i]) > 0);
                if q[i] == x {
                    assert(rel(s[s.len() - 1], x));
                } else {
                    assert(t.to_multiset().count(q[i]) > 0);
                    assert(t.contains(q[i]));
                    let k = choose|k: int| 0 <= k < t.len() && t[k] == q[i];
                    assert(rel(s[k], s[s.len() - 1]));
                }
            } else {
                assert(rel(q[i], q[j]));
            }
        }
    } else {
        assert forall|i: int, j: int| 0 <= i < j < r.len() implies rel(
            #[trigger] r[i],
            #[trigger] r[j],
        ) by {
            if j == s.len() {
                assert(rel(s[i], x));
            }
        }
    }
}

/// A symmetric relation between any two elements outlives sorting.
pub proof fn lemma_sorted_pairwise<T>(
    s: Seq<T>,
    le: spec_fn(T, T) -> bool,
    rel: spec_fn(T, T) -> bool,
)
    requires
        in_order(s, rel),
        forall|a: T, b: T| #[trigger] rel(a, b) ==> rel(b, a),
    ensures
        in_order(sorted(s, le), rel),
    decreases s.len(),
{
    if s.len() > 0 {
        let t = s.drop_last();
        assert forall|i: int, j: int| 0 <= i < j < t.len() implies rel(
            #[trigger] t[i],
            #[trigger] t[j],
        ) by {
            assert(rel(s[i], s[j]));
        }
        lemma_sorted_pairwise(t, le, rel);
        sorting_keeps_the_elements(t, le);
        let q = sorted(t, le);
        assert forall|i: int| 0 <= i < q.len() implies rel(#[trigger] q[i], s.last()) by {
            assert(q.contains(q[i]));
            assert(t.contains(q[i]));
            let k = choose|k: int| 0 <= k < t.len() && t[k] == q[i];
            assert(rel(s[k], s[s.len() - 1]));
        }
        lemma_placed_pairwise(q, s.last(), le, rel);
    }
}

/// A relation between any two elements outlives a filter.
pub proof fn lemma_filter_pairwise<T>(
    s: Seq<T>,
    p: spec_fn(T) -> bool,
    rel: spec_fn(T, T) -> bool,
)
    requires
        in_order(s, rel),
    ensures
        in_order(s.filter(p), rel),
    decreases s.len(),
{
    reveal(Seq::filter);
    if s.len() > 0 {
        let t = s.drop_last();
        assert forall|i: int, j: int| 0 <= i < j < t.len() implies rel(
            #[trigger] t[i],
            #[trigger] t[j],
        ) by {
            assert(rel(s[i], s[j]));
        }
        lemma_filter_pairwise(t, p, rel);
        crate::seqs::lemma_filter_members(t, p);
        let q = t.filter(p);
        let r = s.filter(p);
        assert forall|i: int, j: int| 0 <= i < j < r.len() implies rel(
            #[trigger] r[i],
            #[trigger] r[j],
        ) by {
            if j == q.len() {
                assert(q.contains(q[i]));
                let k = choose|k: int| 0 <= k < t.len() && t[k] == q[i];
                assert(rel(s[k], s[s.len() - 1]));
            } else {
                assert(rel(q[i], q[j]));
            }
        }
    }
}

proof fn lemma_placed_count<T>(
    s: Seq<T>,
    x: T,
    le: spec_fn(T, T) -> bool,
    f: spec_fn(T) -> bool,
)
    ensures
        placed(s, x, le).filter(f).len() == s.filter(f).len() + if f(x) {
            1nat
        } else {
            0nat
        },
    decreases s.len(),
{
    crate::seqs::lemma_filter_push(s, f, x);
    if s.len() == 0 {
        assert(s =~= Seq::<T>::empty());
        assert(placed(s, x, le) =~= s.push(x));
    } else if !le(s.last(), x) {
        let t = s.drop_last();
        lemma_placed_count(t, x, le, f);
        crate::seqs::lemma_filter_push(placed(t, x, le), f, s.last());
        crate::seqs::lemma_filter_push(t, f, s.last());
        assert(t.push(s.last()) =~= s);
    }
}

/// Sorting keeps how many elements there are of any kind.
pub proof fn lemma_sorted_count<T>(s: Seq<T>, le: spec_fn(T, T) -> bool, f: spec_fn(T) -> bool)
    ensures
        sorted(s, le).filter(f).len() == s.filter(f).len(),
    decreases s.len(),
{
    if s.len() > 0 {
        let t = s.drop_last();
        lemma_sorted_count(t, le, f);
        lemma_placed_count(sorted(t, le), s.last(), le, f);
        crate::seqs::lemma_filter_push(t, f, s.last());
        assert(t.push(s.last()) =~= s);
    }
}

} // verus!
