//! The abstract state of a cache: its entries, most recently used first,
//! and what each operation does to them.
use vstd::prelude::*;

verus! {

/// Some entry of `s` has key `k`.
pub open spec fn has_key<K, V>(s: Seq<(K, V)>, k: K) -> bool {
    exists|i: int| 0 <= i < s.len() && #[trigger] s[i].0 == k
}

/// The position of an entry of `s` with key `k` (meaningful when `has_key(s, k)`).
pub open spec fn key_index<K, V>(s: Seq<(K, V)>, k: K) -> int {
    choose|i: int| 0 <= i < s.len() && #[trigger] s[i].0 == k
}

/// No two entries of `s` share a key.
pub open spec fn keys_distinct<K, V>(s: Seq<(K, V)>) -> bool {
    forall|i: int, j: int|
        0 <= i < s.len() && 0 <= j < s.len() && #[trigger] s[i].0 == #[trigger] s[j].0 ==> i == j
}

/// The value stored under `k`, if any.
pub open spec fn lookup<K, V>(s: Seq<(K, V)>, k: K) -> Option<V> {
    if has_key(s, k) {
        Some(s[key_index(s, k)].1)
    } else {
        None
    }
}

/// The entry at position `i` moved to the front, the others keeping their order.
pub open spec fn promote<K, V>(s: Seq<(K, V)>, i: int) -> Seq<(K, V)> {
    seq![s[i]] + s.remove(i)
}

/// The entries after a read of `k`: a hit promotes the entry, a miss changes nothing.
pub open spec fn get_model<K, V>(s: Seq<(K, V)>, k: K) -> Seq<(K, V)> {
    if has_key(s, k) {
        promote(s, key_index(s, k))
    } else {
        s
    }
}

/// The entries after writing `v` under `k` in a cache that holds at most `cap` entries.
///
/// An existing key is updated in place and promoted. A new key goes to the
/// front; when the cache is full, the least recently used entry (the last)
/// is evicted first.
pub open spec fn insert_model<K, V>(s: Seq<(K, V)>, cap: nat, k: K, v: V) -> Seq<(K, V)> {
    if has_key(s, k) {
        seq![(k, v)] + s.remove(key_index(s, k))
    } else if s.len() >= cap {
        seq![(k, v)] + s.drop_last()
    } else {
        seq![(k, v)] + s
    }
}

/// The entries after inserting each of `es` in turn, starting from `s`.
pub open spec fn insert_all<K, V>(s: Seq<(K, V)>, cap: nat, es: Seq<(K, V)>) -> Seq<(K, V)>
    decreases es.len(),
{
    if es.len() == 0 {
        s
    } else {
        let p = insert_all(s, cap, es.drop_last());
        insert_model(p, cap, es.last().0, es.last().1)
    }
}

/// `es` (newest first) followed by `s`, cut to at most `cap` entries.
pub open spec fn newest_first<K, V>(s: Seq<(K, V)>, es: Seq<(K, V)>, cap: nat) -> Seq<(K, V)> {
    let n = es.len();
    let total = n + s.len();
    let len = if total < cap { total } else { cap };
    Seq::new(len as nat, |j: int| if j < n { es[n - 1 - j] } else { s[j - n] })
}

/// No key of `es` is held in `s`, and no two entries of `es` share a key.
pub open spec fn fresh<K, V>(s: Seq<(K, V)>, es: Seq<(K, V)>) -> bool {
    &&& keys_distinct(es)
    &&& forall|j: int| 0 <= j < es.len() ==> !has_key(s, #[trigger] es[j].0)
}

/// Inserting keys that are not cached yet puts them in front, newest first,
/// and evicts from the least recently used end so that at most `cap`
/// entries remain.
pub proof fn lemma_fresh_inserts<K, V>(s: Seq<(K, V)>, cap: nat, es: Seq<(K, V)>)
    requires
        0 < cap,
        s.len() <= cap,
        fresh(s, es),
    ensures
        insert_all(s, cap, es) == newest_first(s, es, cap),
    decreases es.len(),
{
    if es.len() == 0 {
        assert(newest_first(s, es, cap) =~= s);
    } else {
        let n = es.len();
        let es2 = es.drop_last();
        assert(fresh(s, es2)) by {
            assert forall|i: int, j: int|
                0 <= i < es2.len() && 0 <= j < es2.len() && #[trigger] es2[i].0 == #[trigger] es2[j].0
                implies i == j by {
                assert(es[i].0 == es[j].0);
            }
            assert forall|j: int| 0 <= j < es2.len() implies !has_key(s, #[trigger] es2[j].0) by {
                assert(es2[j].0 == es[j].0);
            }
        }
        lemma_fresh_inserts(s, cap, es2);
        let p = insert_all(s, cap, es2);
        let e = es.last();
        assert(!has_key(p, e.0)) by {
            if has_key(p, e.0) {
                let j = choose|j: int| 0 <= j < p.len() && #[trigger] p[j].0 == e.0;
                if j < n - 1 {
                    assert(es[n - 1 - 1 - j].0 == es[n - 1].0);
                } else {
                    assert(s[j - (n - 1)].0 == es[n - 1].0);
                }
            }
        }
        let q = newest_first(s, es, cap);
        assert(insert_all(s, cap, es) == insert_model(p, cap, e.0, e.1));
        assert(e == (e.0, e.1));
        if p.len() >= cap {
            let r = seq![e] + p.drop_last();
            assert(insert_model(p, cap, e.0, e.1) == r);
            assert forall|j: int| 0 <= j < q.len() implies r[j] == q[j] by {
                if j > 0 {
                    assert(r[j] == p[j - 1]);
                    if j < n {
                        assert(es2[n - 1 - j] == es[n - 1 - j]);
                    }
                }
            }
            assert(r =~= q);
        } else {
            let r = seq![e] + p;
            assert(insert_model(p, cap, e.0, e.1) == r);
            assert forall|j: int| 0 <= j < q.len() implies r[j] == q[j] by {
                if j > 0 {
                    assert(r[j] == p[j - 1]);
                    if j < n {
                        assert(es2[n - 1 - j] == es[n - 1 - j]);
                    }
                }
            }
            assert(r =~= q);
        }
    }
}

/// Keys inserted into an empty cache are evicted oldest first: after
/// inserting the distinct keys `es` (at most `cap` of them) and then the
/// further distinct keys `fs`, the entry `es[i]` is still cached exactly
/// when fewer than `i + 1` evictions have happened.
pub proof fn lemma_eviction_order<K, V>(cap: nat, es: Seq<(K, V)>, fs: Seq<(K, V)>)
    requires
        0 < cap,
        es.len() <= cap,
        keys_distinct(es + fs),
    ensures
        forall|i: int|
            0 <= i < es.len() ==> (has_key(
                insert_all(insert_all(Seq::empty(), cap, es), cap, fs),
                #[trigger] es[i].0,
            ) <==> i + cap >= es.len() + fs.len()),
{
    let all = es + fs;
    let n = es.len();
    let m = fs.len();
    assert(fresh(Seq::<(K, V)>::empty(), es)) by {
        assert forall|i: int, j: int|
            0 <= i < n && 0 <= j < n && #[trigger] es[i].0 == #[trigger] es[j].0 implies i == j by {
            assert(all[i].0 == all[j].0);
        }
    }
    lemma_fresh_inserts(Seq::empty(), cap, es);
    let s1 = insert_all(Seq::empty(), cap, es);
    assert(fresh(s1, fs)) by {
        assert forall|i: int, j: int|
            0 <= i < m && 0 <= j < m && #[trigger] fs[i].0 == #[trigger] fs[j].0 implies i == j by {
            assert(all[n + i].0 == all[n + j].0);
        }
        assert forall|j: int| 0 <= j < m implies !has_key(s1, #[trigger] fs[j].0) by {
            if has_key(s1, fs[j].0) {
                let x = choose|x: int| 0 <= x < s1.len() && #[trigger] s1[x].0 == fs[j].0;
                assert(all[n - 1 - x].0 == all[n + j].0);
            }
        }
    }
    lemma_fresh_inserts(s1, cap, fs);
    let r = insert_all(s1, cap, fs);
    assert forall|i: int| 0 <= i < n implies (has_key(r, #[trigger] es[i].0) <==> i + cap >= n + m) by {
        if i + cap >= n + m {
            let x = m + n - 1 - i;
            assert(r[x].0 == es[i].0);
        } else if has_key(r, es[i].0) {
            let x = choose|x: int| 0 <= x < r.len() && #[trigger] r[x].0 == es[i].0;
            if x < m {
                assert(all[n + m - 1 - x].0 == all[i].0);
            } else {
                assert(all[n - 1 - (x - m)].0 == all[i].0);
            }
        }
    }
}

/// Promoting an entry keeps the length and the set of keys, and keeps keys distinct.
pub proof fn lemma_promote<K, V>(s: Seq<(K, V)>, i: int)
    requires
        0 <= i < s.len(),
    ensures
        promote(s, i).len() == s.len(),
        promote(s, i)[0] == s[i],
        forall|k: K| has_key(promote(s, i), k) == has_key(s, k),
        keys_distinct(s) ==> keys_distinct(promote(s, i)),
{
    let p = promote(s, i);
    assert forall|j: int| 0 <= j < p.len() implies #[trigger] p[j] == s[if j == 0 {
        i
    } else if j <= i {
        j - 1
    } else {
        j
    }] by {}
    assert forall|k: K| has_key(p, k) == has_key(s, k) by {
        if has_key(s, k) {
            let x = choose|x: int| 0 <= x < s.len() && #[trigger] s[x].0 == k;
            let y = if x == i {
                0
            } else if x < i {
                x + 1
            } else {
                x
            };
            assert(p[y].0 == k);
        }
        if has_key(p, k) {
            let y = choose|y: int| 0 <= y < p.len() && #[trigger] p[y].0 == k;
            assert(p[y] == s[if y == 0 {
                i
            } else if y <= i {
                y - 1
            } else {
                y
            }]);
        }
    }
}

/// A read that hits makes its entry survive the next `cap - 1` insertions
/// of new keys: they are put in front of it, and the evictions take the
/// entries behind it, least recently used first.
pub proof fn lemma_access_promotes<K, V>(s: Seq<(K, V)>, cap: nat, k: K, es: Seq<(K, V)>)
    requires
        0 < cap,
        s.len() <= cap,
        has_key(s, k),
        fresh(s, es),
        es.len() < cap,
    ensures
        insert_all(get_model(s, k), cap, es) == newest_first(get_model(s, k), es, cap),
        has_key(insert_all(get_model(s, k), cap, es), k),
{
    let g = get_model(s, k);
    lemma_promote(s, key_index(s, k));
    assert(fresh(g, es));
    lemma_fresh_inserts(g, cap, es);
    let r = insert_all(g, cap, es);
    assert(r[es.len() as int].0 == k);
}

/// Writing to a key that is already cached evicts nothing: the number of
/// entries and the set of keys stay the same, and the key now holds `v`.
pub proof fn lemma_update_in_place<K, V>(s: Seq<(K, V)>, cap: nat, k: K, v: V)
    requires
        has_key(s, k),
    ensures
        insert_model(s, cap, k, v).len() == s.len(),
        forall|x: K| has_key(insert_model(s, cap, k, v), x) == has_key(s, x),
        keys_distinct(s) ==> lookup(insert_model(s, cap, k, v), k) == Some(v),
{
    let i = key_index(s, k);
    let t = s.update(i, (k, v));
    lemma_promote(t, i);
    assert(insert_model(s, cap, k, v) =~= promote(t, i));
    assert forall|x: K| has_key(t, x) == has_key(s, x) by {
        if has_key(s, x) {
            let y = choose|y: int| 0 <= y < s.len() && #[trigger] s[y].0 == x;
            assert(t[y].0 == x);
        }
        if has_key(t, x) {
            let y = choose|y: int| 0 <= y < t.len() && #[trigger] t[y].0 == x;
            assert(s[y].0 == x);
        }
    }
    if keys_distinct(s) {
        assert(keys_distinct(t)) by {
            assert forall|a: int, b: int|
                0 <= a < t.len() && 0 <= b < t.len() && #[trigger] t[a].0 == #[trigger] t[b].0
                implies a == b by {
                assert(s[a].0 == t[a].0);
                assert(s[b].0 == t[b].0);
            }
        }
        let r = promote(t, i);
        assert(r[0].0 == k);
        assert(r[key_index(r, k)].0 == k);
    }
}

/// A read that misses returns nothing and leaves the entries, and so their
/// order, unchanged.
pub proof fn lemma_miss_is_pure<K, V>(s: Seq<(K, V)>, k: K)
    requires
        !has_key(s, k),
    ensures
        get_model(s, k) == s,
        lookup(s, k) is None,
{
}

} // verus!
