//! The abstract meaning of a cache: its entries as a sequence of key/value
//! pairs, ordered from the most recently used to the least recently used.
use vstd::prelude::*;

verus! {

/// `s` holds an entry for `k`.
pub open spec fn has_key<K, V>(s: Seq<(K, V)>, k: K) -> bool {
    exists|i: int| 0 <= i < s.len() && (#[trigger] s[i]).0 == k
}

/// The position of the entry for `k` in `s` (meaningful when `has_key(s, k)`).
pub open spec fn key_index<K, V>(s: Seq<(K, V)>, k: K) -> int {
    choose|i: int| 0 <= i < s.len() && (#[trigger] s[i]).0 == k
}

/// No key occurs twice in `s`.
pub open spec fn distinct_keys<K, V>(s: Seq<(K, V)>) -> bool {
    forall|i: int, j: int|
        0 <= i < s.len() && 0 <= j < s.len() && i != j ==> (#[trigger] s[i]).0 != (#[trigger] s[j]).0
}

/// The value held for `k`, if any.
pub open spec fn lookup<K, V>(s: Seq<(K, V)>, k: K) -> Option<V> {
    if has_key(s, k) {
        Some(s[key_index(s, k)].1)
    } else {
        None
    }
}

/// The entries after a lookup of `k`: a hit moves its entry to the front,
/// a miss changes nothing.
pub open spec fn after_get<K, V>(s: Seq<(K, V)>, k: K) -> Seq<(K, V)> {
    if has_key(s, k) {
        let i = key_index(s, k);
        seq![s[i]] + s.remove(i)
    } else {
        s
    }
}

/// The entries after storing `v` under `k` with room for `cap` entries.
/// A present key is updated and moved to the front; an absent key is put in
/// front, and when the cache is full the least recently used entry (the
/// last one) makes room for it.
pub open spec fn after_put<K, V>(s: Seq<(K, V)>, cap: nat, k: K, v: V) -> Seq<(K, V)> {
    if has_key(s, k) {
        seq![(k, v)] + s.remove(key_index(s, k))
    } else if s.len() < cap {
        seq![(k, v)] + s
    } else {
        seq![(k, v)] + s.drop_last()
    }
}

/// The entries after storing each pair of `ops` in turn.
pub open spec fn after_puts<K, V>(s: Seq<(K, V)>, cap: nat, ops: Seq<(K, V)>) -> Seq<(K, V)>
    decreases ops.len(),
{
    if ops.len() == 0 {
        s
    } else {
        after_puts(after_put(s, cap, ops[0].0, ops[0].1), cap, ops.drop_first())
    }
}

/// On distinct keys, the entry for `k` is the one at `key_index`.
proof fn lemma_key_index<K, V>(s: Seq<(K, V)>, k: K, i: int)
    requires
        distinct_keys(s),
        0 <= i < s.len(),
        s[i].0 == k,
    ensures
        has_key(s, k),
        key_index(s, k) == i,
        lookup(s, k) == Some(s[i].1),
{
    assert(has_key(s, k));
}

/// One `put` keeps the keys distinct and the entries within the capacity.
proof fn lemma_put_within_capacity<K, V>(s: Seq<(K, V)>, cap: nat, k: K, v: V)
    requires
        distinct_keys(s),
        s.len() <= cap,
        0 < cap,
    ensures
        distinct_keys(after_put(s, cap, k, v)),
        after_put(s, cap, k, v).len() <= cap,
{
    let r = after_put(s, cap, k, v);
    if has_key(s, k) {
        let i = key_index(s, k);
        assert forall|a: int, b: int|
            0 <= a < r.len() && 0 <= b < r.len() && a != b implies (#[trigger] r[a]).0 != (#[trigger] r[b]).0 by {
            let ia = if a <= i { a - 1 } else { a };
            let ib = if b <= i { b - 1 } else { b };
            if a > 0 && b > 0 {
                assert(r[a] == s[ia]);
                assert(r[b] == s[ib]);
            } else if a == 0 {
                assert(r[b] == s[ib]);
            } else {
                assert(r[a] == s[ia]);
            }
        }
    } else {
        let t = if s.len() < cap { s } else { s.drop_last() };
        assert(r == seq![(k, v)] + t);
        assert forall|a: int, b: int|
            0 <= a < r.len() && 0 <= b < r.len() && a != b implies (#[trigger] r[a]).0 != (#[trigger] r[b]).0 by {
            if a > 0 {
                assert(r[a] == s[a - 1]);
            }
            if b > 0 {
                assert(r[b] == s[b - 1]);
            }
        }
    }
}

/// However many `put` calls follow one another, no key is held twice and
/// the number of entries never exceeds the capacity.
pub proof fn lemma_puts_within_capacity<K, V>(s: Seq<(K, V)>, cap: nat, ops: Seq<(K, V)>)
    requires
        distinct_keys(s),
        s.len() <= cap,
        0 < cap,
    ensures
        distinct_keys(after_puts(s, cap, ops)),
        after_puts(s, cap, ops).len() <= cap,
    decreases ops.len(),
{
    if ops.len() > 0 {
        lemma_put_within_capacity(s, cap, ops[0].0, ops[0].1);
        lemma_puts_within_capacity(after_put(s, cap, ops[0].0, ops[0].1), cap, ops.drop_first());
    }
}

/// A `get` that finds `k` returns its value and makes it the most recently
/// used entry, keeping the order of all the others.
pub proof fn lemma_hit_promotes<K, V>(s: Seq<(K, V)>, k: K)
    requires
        distinct_keys(s),
        has_key(s, k),
    ensures
        after_get(s, k).len() == s.len(),
        lookup(s, k) is Some,
        after_get(s, k)[0] == (k, lookup(s, k)->Some_0),
        after_get(s, k).drop_first() == s.remove(key_index(s, k)),
{
    let i = key_index(s, k);
    assert(after_get(s, k).drop_first() =~= s.remove(i));
}

/// Storing `v1` and then `v2` under the same key leaves `v2` in the most
/// recently used entry, which a later `get` returns.
pub proof fn lemma_update_promotes<K, V>(s: Seq<(K, V)>, cap: nat, k: K, v1: V, v2: V)
    requires
        distinct_keys(s),
        s.len() <= cap,
        0 < cap,
    ensures
        after_put(after_put(s, cap, k, v1), cap, k, v2)[0] == (k, v2),
        lookup(after_put(after_put(s, cap, k, v1), cap, k, v2), k) == Some(v2),
        after_get(after_put(after_put(s, cap, k, v1), cap, k, v2), k) == after_put(
            after_put(s, cap, k, v1),
            cap,
            k,
            v2,
        ),
{
    let s1 = after_put(s, cap, k, v1);
    lemma_put_within_capacity(s, cap, k, v1);
    assert(s1[0].0 == k);
    lemma_key_index(s1, k, 0);
    let s2 = after_put(s1, cap, k, v2);
    lemma_put_within_capacity(s1, cap, k, v2);
    assert(s2[0] == (k, v2));
    lemma_key_index(s2, k, 0);
    assert(after_get(s2, k) =~= s2);
}

/// A new key stored in a full cache evicts exactly the least recently used
/// entry (the last one) and keeps every other key.
pub proof fn lemma_full_put_evicts_lru<K, V>(s: Seq<(K, V)>, cap: nat, k: K, v: V)
    requires
        distinct_keys(s),
        s.len() == cap,
        0 < cap,
        !has_key(s, k),
    ensures
        after_put(s, cap, k, v).len() == cap,
        after_put(s, cap, k, v)[0] == (k, v),
        !has_key(after_put(s, cap, k, v), s.last().0),
        forall|i: int| 0 <= i < s.len() - 1 ==> has_key(after_put(s, cap, k, v), #[trigger] s[i].0),
{
    let r = after_put(s, cap, k, v);
    assert(r == seq![(k, v)] + s.drop_last());
    assert forall|i: int| 0 <= i < s.len() - 1 implies has_key(r, #[trigger] s[i].0) by {
        assert(r[i + 1] == s[i]);
    }
    if has_key(r, s.last().0) {
        let j = choose|j: int| 0 <= j < r.len() && (#[trigger] r[j]).0 == s.last().0;
        if j == 0 {
            assert(s[s.len() - 1].0 == k);
        } else {
            assert(r[j] == s[j - 1]);
        }
    }
}

} // verus!
