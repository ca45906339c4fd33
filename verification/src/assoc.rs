//! Association lists: pairs of a key and a value, seen as a map.

use vstd::prelude::*;

use crate::order;
use crate::seqs;
use crate::seqs::first_where;

verus! {

/// The pairs with this key.
pub open spec fn has_key<K, V>(key: K) -> spec_fn((K, V)) -> bool {
    |e: (K, V)| e.0 == key
}

/// Two pairs with different keys.
pub open spec fn keys_differ<K, V>() -> spec_fn((K, V), (K, V)) -> bool {
    |a: (K, V), b: (K, V)| a.0 != b.0
}

/// No key occurs twice.
pub open spec fn distinct<K, V>(es: Seq<(K, V)>) -> bool {
    order::in_order(es, keys_differ())
}

/// The map of the first pair of each key.
pub open spec fn as_map<K, V>(es: Seq<(K, V)>) -> Map<K, V> {
    Map::new(
        |k: K| first_where(es, has_key::<K, V>(k)) < es.len(),
        |k: K| es[first_where(es, has_key::<K, V>(k)) as int].1,
    )
}

/// `es` with `value` for `key`: in the place of its pair, or at the end.
pub open spec fn with_pair<K, V>(es: Seq<(K, V)>, key: K, value: V) -> Seq<(K, V)> {
    let i = first_where(es, has_key::<K, V>(key)) as int;
    if i < es.len() {
        es.update(i, (key, value))
    } else {
        es.push((key, value))
    }
}

/// No pair, no key.
pub proof fn lemma_no_pairs<K, V>(es: Seq<(K, V)>)
    requires
        es.len() == 0,
    ensures
        distinct(es),
        as_map(es) == Map::<K, V>::empty(),
{
    assert forall|k: K| first_where(es, has_key::<K, V>(k)) >= es.len() by {
        seqs::lemma_first_where(es, has_key::<K, V>(k));
    }
    assert(as_map(es) =~= Map::empty());
}

/// The pairs are those of the map.
pub proof fn lemma_pairs_of_map<K, V>(es: Seq<(K, V)>)
    requires
        distinct(es),
    ensures
        forall|e: (K, V)| #[trigger]
            es.contains(e) <==> as_map(es).contains_key(e.0) && as_map(es)[e.0] == e.1,
{
    assert forall|e: (K, V)| #[trigger]
        es.contains(e) <==> as_map(es).contains_key(e.0) && as_map(es)[e.0] == e.1 by {
        let p = has_key::<K, V>(e.0);
        seqs::lemma_first_where(es, p);
        let k = first_where(es, p) as int;
        if es.contains(e) {
            let i = choose|i: int| 0 <= i < es.len() && es[i] == e;
            assert(p(es[i]));
            if k < i {
                assert(keys_differ::<K, V>()(es[k], es[i]));
            }
        }
        if as_map(es).contains_key(e.0) && as_map(es)[e.0] == e.1 {
            assert(p(es[k]));
            assert(es[k] == e);
        }
    }
}

/// Placing a pair inserts it into the map.
pub proof fn lemma_with_pair<K, V>(es: Seq<(K, V)>, key: K, value: V)
    ensures
        as_map(with_pair(es, key, value)) == as_map(es).insert(key, value),
        distinct(es) ==> distinct(with_pair(es, key, value)),
{
    let after = with_pair(es, key, value);
    let q = has_key::<K, V>(key);
    seqs::lemma_first_where(es, q);
    let i = first_where(es, q) as int;
    assert forall|k: K|
        #![trigger first_where(after, has_key::<K, V>(k))]
        (first_where(after, has_key::<K, V>(k)) < after.len() <==> (k == key || first_where(
            es,
            has_key::<K, V>(k),
        ) < es.len())) && (first_where(after, has_key::<K, V>(k)) < after.len()
            ==> after[first_where(after, has_key::<K, V>(k)) as int].1 == if k == key {
            value
        } else {
            es[first_where(es, has_key::<K, V>(k)) as int].1
        }) by {
        let p = has_key::<K, V>(k);
        seqs::lemma_first_where(es, p);
        let j = first_where(es, p) as int;
        assert forall|n: int| 0 <= n < j implies !p(#[trigger] after[n]) by {
            assert(!p(es[n]));
            if n == i {
                assert(q(es[n]));
            }
        }
        if k == key {
            assert(j == i);
            assert(p(after[i]));
            seqs::lemma_first_where_unique(after, p, i);
        } else if j < es.len() {
            assert(p(es[j]));
            assert(j != i);
            assert(after[j] == es[j]);
            seqs::lemma_first_where_unique(after, p, j);
        } else {
            assert forall|n: int| 0 <= n < after.len() implies !p(#[trigger] after[n]) by {
                if n < es.len() && n != i {
                    assert(!p(es[n]));
                }
            }
            seqs::lemma_first_where_unique(after, p, after.len() as int);
        }
    }
    assert(as_map(after) =~= as_map(es).insert(key, value));
    if distinct(es) {
        assert forall|a: int, b: int| 0 <= a < b < after.len() implies keys_differ::<K, V>()(
            #[trigger] after[a],
            #[trigger] after[b],
        ) by {
            if b < es.len() {
                assert(keys_differ::<K, V>()(es[a], es[b]));
            } else {
                assert(!q(es[a]));
            }
        }
    }
}

/// Filtering pairs filters the map.
pub proof fn lemma_filtered<K, V>(es: Seq<(K, V)>, p: spec_fn((K, V)) -> bool)
    requires
        distinct(es),
    ensures
        distinct(es.filter(p)),
        forall|k: K| #[trigger]
            as_map(es.filter(p)).contains_key(k) <==> as_map(es).contains_key(k) && p(
                (k, as_map(es)[k]),
            ),
        forall|k: K| #[trigger]
            as_map(es.filter(p)).contains_key(k) ==> as_map(es.filter(p))[k] == as_map(es)[k],
{
    let kept = es.filter(p);
    let m = as_map(es);
    let n = as_map(kept);
    order::lemma_filter_pairwise(es, p, keys_differ());
    seqs::lemma_filter_members(es, p);
    lemma_pairs_of_map(es);
    lemma_pairs_of_map(kept);
    assert forall|k: K| #[trigger] n.contains_key(k) <==> m.contains_key(k) && p((k, m[k])) by {
        if n.contains_key(k) {
            assert(kept.contains((k, n[k])));
            assert(es.contains((k, n[k])));
        }
        if m.contains_key(k) && p((k, m[k])) {
            assert(es.contains((k, m[k])));
            assert(kept.contains((k, m[k])));
        }
    }
    assert forall|k: K| #[trigger] n.contains_key(k) implies n[k] == m[k] by {
        assert(kept.contains((k, n[k])));
        assert(es.contains((k, n[k])));
    }
}

} // verus!
