//! The cache: a slot arena threaded by a recency list, and a lookup table
//! from keys to slot indices.
use std::collections::HashMap;
use std::hash::Hash;
use vstd::prelude::*;
use vstd::std_specs::hash::obeys_key_model;
use vstd::pervasive::strictly_cloned;

use crate::entry::CacheEntry;
use crate::model::{after_get, after_put, distinct_keys, has_key, key_index, lookup};

verus! {

broadcast use vstd::std_specs::hash::group_hash_axioms;

/// What the cache needs of its key type: hashing and equality that agree with
/// the mathematical equality of keys, and a `clone` that returns an equal key.
pub open spec fn lawful_key<K: Clone>() -> bool {
    &&& obeys_key_model::<K>()
    &&& forall|a: K, b: K| #[trigger] strictly_cloned(a, b) ==> a == b
}

/// The slots met by starting at `start` and following `next` links, `steps`
/// slots in all.
pub open spec fn walk_next<K, V>(q: Seq<CacheEntry<K, V>>, start: u32, steps: nat) -> Seq<u32>
    decreases steps,
{
    if steps == 0 {
        Seq::empty()
    } else {
        seq![start] + walk_next(q, q[start as int].spec_next(), (steps - 1) as nat)
    }
}

/// The slots met by starting at `start` and following `previous` links,
/// `steps` slots in all.
pub open spec fn walk_previous<K, V>(q: Seq<CacheEntry<K, V>>, start: u32, steps: nat) -> Seq<u32>
    decreases steps,
{
    if steps == 0 {
        Seq::empty()
    } else {
        seq![start] + walk_previous(q, q[start as int].spec_previous(), (steps - 1) as nat)
    }
}

/// Moving the element at position `p` of a duplicate-free sequence of slot
/// indices to the front keeps it duplicate-free and keeps its elements.
proof fn lemma_move_to_front(o: Seq<u32>, p: int)
    requires
        o.no_duplicates(),
        0 <= p < o.len(),
    ensures
        ({
            let o2 = seq![o[p]] + o.remove(p);
            &&& o2.len() == o.len()
            &&& o2.no_duplicates()
            &&& forall|i: int|
                0 <= i < o.len() ==> #[trigger] o2[i] == (if i == 0 {
                    o[p]
                } else if i <= p {
                    o[i - 1]
                } else {
                    o[i]
                })
            &&& forall|j: u32| o.contains(j) ==> #[trigger] o2.contains(j)
        }),
{
    let n = o.len();
    let o2 = seq![o[p]] + o.remove(p);
    assert forall|i: int| 0 <= i < n implies #[trigger] o2[i] == (if i == 0 {
        o[p]
    } else if i <= p {
        o[i - 1]
    } else {
        o[i]
    }) by {}
    assert forall|a: int, b: int| 0 <= a < n && 0 <= b < n && a != b implies o2[a] != o2[b] by {
        let ia = if a == 0 { p } else if a <= p { a - 1 } else { a };
        let ib = if b == 0 { p } else if b <= p { b - 1 } else { b };
        assert(o2[a] == o[ia]);
        assert(o2[b] == o[ib]);
    }
    assert forall|j: u32| o.contains(j) implies #[trigger] o2.contains(j) by {
        let i = o.index_of(j);
        let i2 = if i == p { 0 } else if i < p { i + 1 } else { i };
        assert(o2[i2] == j);
    }
}

/// A cache holding at most `max_size` entries, evicting the least recently
/// used one to make room.
pub struct LruCache<K: Eq + Hash, V> {
    map: HashMap<K, u32>,
    queue: Vec<CacheEntry<K, V>>,
    max_size: usize,
    head: u32,
    tail: u32,
    /// The live slot indices, from `head` (most recently used) to `tail`.
    order: Ghost<Seq<u32>>,
}

impl<K: Eq + Hash, V> View for LruCache<K, V> {
    type V = Seq<(K, V)>;

    /// The entries, from the most recently used to the least recently used.
    closed spec fn view(&self) -> Seq<(K, V)> {
        self.order@.map_values(
            |j: u32| (self.queue@[j as int].spec_key(), self.queue@[j as int].spec_value()),
        )
    }
}

impl<K: Eq + Hash + Clone, V> LruCache<K, V> {
    /// The number of entries the cache can hold.
    pub closed spec fn capacity(&self) -> nat {
        self.max_size as nat
    }

    /// The slots of the arena.
    pub closed spec fn slots(&self) -> Seq<CacheEntry<K, V>> {
        self.queue@
    }

    /// The slot of the most recently used entry.
    pub closed spec fn head_slot(&self) -> u32 {
        self.head
    }

    /// The slot of the least recently used entry.
    pub closed spec fn tail_slot(&self) -> u32 {
        self.tail
    }

    /// The recency order visits every live slot exactly once, and the links of
    /// consecutive slots point at each other.
    closed spec fn links_ok(&self) -> bool {
        let n = self.queue@.len();
        let o = self.order@;
        &&& o.len() == n
        &&& o.no_duplicates()
        &&& forall|i: int| 0 <= i < n ==> (#[trigger] o[i]) < n
        &&& forall|j: u32| j < n ==> #[trigger] o.contains(j)
        &&& n > 0 ==> self.head == o[0] && self.tail == o[n - 1]
        &&& forall|i: int|
            0 <= i < n - 1 ==> (#[trigger] self.queue@[o[i] as int]).spec_next() == o[i + 1]
        &&& forall|i: int|
            0 < i < n ==> (#[trigger] self.queue@[o[i] as int]).spec_previous() == o[i - 1]
    }

    /// The lookup table maps each live slot's key to that slot, and nothing else.
    closed spec fn table_ok(&self) -> bool {
        let n = self.queue@.len();
        &&& forall|j: int|
            0 <= j < n ==> self.map@.contains_key((#[trigger] self.queue@[j]).spec_key())
                && self.map@[self.queue@[j].spec_key()] == j
        &&& forall|k: K| #[trigger]
            self.map@.contains_key(k) ==> self.map@[k] < n && self.queue@[self.map@[k] as int].spec_key() == k
    }

    /// The internal invariant of the cache.
    pub closed spec fn well_formed(&self) -> bool {
        &&& lawful_key::<K>()
        &&& 0 < self.max_size <= u32::MAX
        &&& self.queue@.len() <= self.max_size
        &&& self.links_ok()
        &&& self.table_ok()
    }

    /// Every well-formed cache holds each key at most once and no more
    /// entries than its capacity.
    pub proof fn lemma_within_capacity(&self)
        requires
            self.well_formed(),
        ensures
            distinct_keys(self@),
            self@.len() <= self.capacity(),
    {
        self.lemma_table_view();
    }

    /// Following `next` links from the head for as many steps as there are
    /// entries visits each live slot (the indices below the entry count)
    /// exactly once, in recency order, and ends at the tail; following
    /// `previous` links from the tail gives the same slots in reverse.
    pub proof fn lemma_recency_walks(&self)
        requires
            self.well_formed(),
        ensures
            walk_next(self.slots(), self.head_slot(), self@.len()).len() == self@.len(),
            walk_next(self.slots(), self.head_slot(), self@.len()).no_duplicates(),
            forall|j: u32|
                #[trigger] walk_next(self.slots(), self.head_slot(), self@.len()).contains(j) <==> j
                    < self@.len(),
            self@.len() > 0 ==> walk_next(self.slots(), self.head_slot(), self@.len()).last()
                == self.tail_slot(),
            walk_previous(self.slots(), self.tail_slot(), self@.len()) == walk_next(
                self.slots(),
                self.head_slot(),
                self@.len(),
            ).reverse(),
            forall|i: int|
                0 <= i < self@.len() ==> #[trigger] self@[i] == ({
                    let j = walk_next(self.slots(), self.head_slot(), self@.len())[i] as int;
                    (self.slots()[j].spec_key(), self.slots()[j].spec_value())
                }),
    {
        let o = self.order@;
        let q = self.queue@;
        let n = q.len();
        if n > 0 {
            self.lemma_walk_next_from(0);
            assert(o.subrange(0, n as int) =~= o);
            self.lemma_walk_previous_from((n - 1) as int);
            assert(o.subrange(0, n as int).reverse() =~= o.reverse());
        } else {
            assert(walk_next(q, self.head, 0) =~= o);
            assert(walk_previous(q, self.tail, 0) =~= o.reverse());
        }
        assert forall|j: u32| #[trigger] o.contains(j) <==> j < n by {
            if o.contains(j) {
                let i = o.index_of(j);
                assert(o[i] < n);
            }
        }
    }

    proof fn lemma_walk_next_from(&self, i: int)
        requires
            self.well_formed(),
            0 <= i < self.queue@.len(),
        ensures
            walk_next(self.queue@, self.order@[i], (self.queue@.len() - i) as nat)
                == self.order@.subrange(i, self.queue@.len() as int),
        decreases self.queue@.len() - i,
    {
        let o = self.order@;
        let n = self.queue@.len();
        let q = self.queue@;
        let rest = walk_next(q, q[o[i] as int].spec_next(), (n - i - 1) as nat);
        assert(walk_next(q, o[i], (n - i) as nat) == seq![o[i]] + rest);
        if i < n - 1 {
            assert(q[o[i] as int].spec_next() == o[i + 1]);
            self.lemma_walk_next_from(i + 1);
        } else {
            assert(rest == Seq::<u32>::empty());
        }
        assert(walk_next(q, o[i], (n - i) as nat) =~= o.subrange(i, n as int));
    }

    proof fn lemma_walk_previous_from(&self, i: int)
        requires
            self.well_formed(),
            0 <= i < self.queue@.len(),
        ensures
            walk_previous(self.queue@, self.order@[i], (i + 1) as nat) == self.order@.subrange(
                0,
                i + 1,
            ).reverse(),
        decreases i,
    {
        let o = self.order@;
        let q = self.queue@;
        let rest = walk_previous(q, q[o[i] as int].spec_previous(), i as nat);
        assert(walk_previous(q, o[i], (i + 1) as nat) == seq![o[i]] + rest);
        if i > 0 {
            assert(q[o[i] as int].spec_previous() == o[i - 1]);
            self.lemma_walk_previous_from(i - 1);
        } else {
            assert(rest == Seq::<u32>::empty());
        }
        assert(walk_previous(q, o[i], (i + 1) as nat) =~= o.subrange(0, i + 1).reverse());
    }

    /// An empty cache with room for `max_size` entries. A capacity of zero
    /// is not supported; slot indices are 32-bit, which bounds the capacity.
    pub fn new(max_size: usize) -> (r: Self)
        requires
            lawful_key::<K>(),
            0 < max_size <= u32::MAX,
        ensures
            r.well_formed(),
            r@ == Seq::<(K, V)>::empty(),
            r.capacity() == max_size,
    {
        let r = LruCache {
            map: HashMap::new(),
            queue: Vec::new(),
            max_size,
            head: 0,
            tail: 0,
            order: Ghost(Seq::empty()),
        };
        assert(r@ =~= Seq::<(K, V)>::empty());
        r
    }

    /// The slot that holds `key`, if any.
    fn get_index(&self, key: &K) -> (r: Option<u32>)
        requires
            self.well_formed(),
        ensures
            match r {
                Some(i) => self.map@.contains_key(*key) && self.map@[*key] == i,
                None => !self.map@.contains_key(*key),
            },
    {
        match self.map.get(key) {
            Some(i) => Some(*i),
            None => None,
        }
    }

    /// Moves slot `idx` to the most recently used end of the recency list.
    fn mark_access(&mut self, idx: u32)
        requires
            old(self).well_formed(),
            idx < old(self).queue@.len(),
        ensures
            final(self).well_formed(),
            final(self).map@ == old(self).map@,
            final(self).max_size == old(self).max_size,
            final(self).queue@.len() == old(self).queue@.len(),
            forall|j: int|
                0 <= j < old(self).queue@.len() ==> (#[trigger] final(self).queue@[j]).spec_key()
                    == old(self).queue@[j].spec_key() && final(self).queue@[j].spec_value()
                    == old(self).queue@[j].spec_value(),
            final(self).order@ == seq![idx] + old(self).order@.remove(
                old(self).order@.index_of(idx),
            ),
            final(self)@ == seq![old(self)@[old(self).order@.index_of(idx)]] + old(self)@.remove(
                old(self).order@.index_of(idx),
            ),
    {
        let ghost o = self.order@;
        let ghost n = self.queue@.len();
        let ghost p = o.index_of(idx);
        assert(o.contains(idx));
        assert(0 <= p < n && o[p] == idx);
        if idx == self.head {
            assert(p == 0);
            assert(self.order@ =~= seq![idx] + o.remove(p));
            assert(self@ =~= seq![old(self)@[p]] + old(self)@.remove(p));
            return;
        }
        assert(p > 0);
        let prev = self.queue[idx as usize].previous();
        let next = self.queue[idx as usize].next();
        assert(prev == o[p - 1]);
        if idx == self.tail {
            assert(p == n - 1);
            self.tail = prev;
        } else {
            assert(p < n - 1);
            assert(next == o[p + 1]);
            self.queue[next as usize].set_previous(prev);
        }
        self.queue[prev as usize].set_next(next);
        let old_head = self.head;
        self.queue[old_head as usize].set_previous(idx);
        self.queue[idx as usize].set_next(old_head);
        self.head = idx;
        let ghost o2 = seq![idx] + o.remove(p);
        self.order = Ghost(o2);
        proof {
            lemma_move_to_front(o, p);
        }
        assert forall|i: int| 0 <= i < n - 1 implies (#[trigger] self.queue@[o2[i] as int]).spec_next()
            == o2[i + 1] by {
            if i == 0 {
            } else if i < p {
                assert(o[i - 1] != prev);
            } else if i == p {
            } else {
            }
        }
        assert forall|i: int| 0 < i < n implies (#[trigger] self.queue@[o2[i] as int]).spec_previous()
            == o2[i - 1] by {
            if i == 1 {
            } else if i <= p {
                assert(o[i - 1] != o[0]);
            } else if i == p + 1 {
            } else {
            }
        }
        assert(self@ =~= seq![old(self)@[p]] + old(self)@.remove(p));
    }

    /// How the lookup table and the view agree: the view holds each key at
    /// most once, and exactly the keys of the table, each at the position of
    /// its slot in the recency order.
    proof fn lemma_table_view(&self)
        requires
            self.well_formed(),
        ensures
            self@.len() == self.queue@.len(),
            distinct_keys(self@),
            forall|k: K| #[trigger] has_key(self@, k) <==> self.map@.contains_key(k),
            forall|k: K|
                #[trigger] self.map@.contains_key(k) ==> {
                    let i = key_index(self@, k);
                    &&& 0 <= i < self@.len()
                    &&& self.order@[i] == self.map@[k]
                    &&& self.order@.index_of(self.map@[k]) == i
                },
    {
        let o = self.order@;
        let n = self.queue@.len();
        assert forall|i: int, j: int|
            0 <= i < n && 0 <= j < n && i != j implies (#[trigger] self@[i]).0 != (#[trigger] self@[j]).0 by {
            assert(self.map@[self.queue@[o[i] as int].spec_key()] == o[i]);
            assert(self.map@[self.queue@[o[j] as int].spec_key()] == o[j]);
        }
        assert forall|k: K| #[trigger] has_key(self@, k) <==> self.map@.contains_key(k) by {
            if self.map@.contains_key(k) {
                let j = self.map@[k];
                assert(o.contains(j));
                let i = o.index_of(j);
                assert(self@[i].0 == k);
            }
            if has_key(self@, k) {
                let i = choose|i: int| 0 <= i < self@.len() && (#[trigger] self@[i]).0 == k;
                assert(self.queue@[o[i] as int].spec_key() == k);
            }
        }
        assert forall|k: K| #[trigger] self.map@.contains_key(k) implies {
            let i = key_index(self@, k);
            &&& 0 <= i < self@.len()
            &&& self.order@[i] == self.map@[k]
            &&& self.order@.index_of(self.map@[k]) == i
        } by {
            let j = self.map@[k];
            assert(o.contains(j));
            let i0 = o.index_of(j);
            assert(self@[i0].0 == k);
            assert(has_key(self@, k));
            let i = key_index(self@, k);
            assert(self.queue@[o[i] as int].spec_key() == k);
            assert(o[i] == j);
        }
    }

    /// Looks `key` up. A hit makes its entry the most recently used one and
    /// returns its value; a miss changes nothing.
    pub fn get(&mut self, key: &K) -> (r: Option<&V>)
        requires
            old(self).well_formed(),
        ensures
            final(self).well_formed(),
            final(self).capacity() == old(self).capacity(),
            final(self)@ == after_get(old(self)@, *key),
            match r {
                Some(v) => lookup(old(self)@, *key) == Some(*v),
                None => lookup(old(self)@, *key) is None,
            },
    {
        proof {
            self.lemma_table_view();
        }
        match self.get_index(key) {
            Some(idx) => {
                self.mark_access(idx);
                Some(self.queue[idx as usize].value())
            },
            None => None,
        }
    }

    /// Stores `value` under `key`. The entry becomes the most recently used
    /// one; when a new key finds the cache full, the least recently used entry
    /// is evicted and its slot reused.
    pub fn put(&mut self, key: K, value: V)
        requires
            old(self).well_formed(),
        ensures
            final(self).well_formed(),
            final(self).capacity() == old(self).capacity(),
            final(self)@ == after_put(old(self)@, old(self).capacity(), key, value),
            distinct_keys(final(self)@),
            final(self)@.len() <= final(self).capacity(),
    {
        proof {
            self.lemma_table_view();
        }
        let ghost s0 = self@;
        match self.get_index(&key) {
            Some(idx) => {
                self.queue[idx as usize].set_value(value);
                let ghost s1 = self@;
                proof {
                    let p = self.order@.index_of(idx);
                    assert(s1 =~= s0.update(p, (key, value)));
                }
                self.mark_access(idx);
                proof {
                    let p = old(self).order@.index_of(idx);
                    assert(s0.remove(p) =~= s1.remove(p));
                    self.lemma_table_view();
                }
            },
            None => {
                let map_key = key.clone();
                if self.queue.len() == self.max_size {
                    self.replace_tail(key, value);
                } else {
                    self.add_tail(key, value);
                }
                self.map.insert(map_key, self.tail);
                proof {
                    assert(strictly_cloned(key, map_key));
                    assert(map_key == key);
                    let n = self.queue@.len();
                    let t = self.tail;
                    assert forall|j: int| 0 <= j < n implies self.map@.contains_key(
                        (#[trigger] self.queue@[j]).spec_key(),
                    ) && self.map@[self.queue@[j].spec_key()] == j by {
                        if j != t {
                            assert(old(self).map@.contains_key(old(self).queue@[j].spec_key()));
                            assert(self.queue@[j].spec_key() == old(self).queue@[j].spec_key());
                        }
                    }
                    assert forall|k: K| #[trigger] self.map@.contains_key(k) implies self.map@[k] < n
                        && self.queue@[self.map@[k] as int].spec_key() == k by {
                        if k != key {
                            assert(old(self).map@.contains_key(k));
                        }
                    }
                    assert(self.table_ok());
                    assert(self.well_formed());
                }
                let ghost s1 = self@;
                self.mark_access(self.tail);
                proof {
                    let n = old(self).queue@.len();
                    if n < old(self).max_size {
                        assert(s1 =~= s0.push((key, value)));
                        assert(s1.remove(n as int) =~= s0);
                    } else {
                        assert(s1 =~= s0.update(n - 1, (key, value)));
                        assert(s1.remove(n - 1) =~= s0.drop_last());
                    }
                    self.lemma_table_view();
                }
            },
        }
    }

    /// Reuses the least recently used slot for `key` and `value`, taking its
    /// old key out of the lookup table.
    fn replace_tail(&mut self, key: K, value: V)
        requires
            old(self).well_formed(),
            old(self).queue@.len() == old(self).max_size,
        ensures
            final(self).links_ok(),
            final(self).order@ == old(self).order@,
            final(self).head == old(self).head,
            final(self).tail == old(self).tail,
            final(self).max_size == old(self).max_size,
            final(self).queue@.len() == old(self).queue@.len(),
            final(self).queue@[old(self).tail as int].spec_key() == key,
            final(self).queue@[old(self).tail as int].spec_value() == value,
            forall|j: int|
                0 <= j < old(self).queue@.len() && j != old(self).tail ==> #[trigger] final(self).queue@[j]
                    == old(self).queue@[j],
            final(self).map@ == old(self).map@.remove(old(self).queue@[old(self).tail as int].spec_key()),
    {
        let entry = &mut self.queue[self.tail as usize];
        entry.set_value(value);
        self.map.remove(entry.key());
        entry.set_key(key);
    }

    /// Appends a slot for `key` and `value` and links it in as the least
    /// recently used one.
    fn add_tail(&mut self, key: K, value: V)
        requires
            old(self).well_formed(),
            old(self).queue@.len() < old(self).max_size,
        ensures
            final(self).links_ok(),
            final(self).order@ == old(self).order@.push(old(self).queue@.len() as u32),
            final(self).tail == old(self).queue@.len(),
            final(self).max_size == old(self).max_size,
            final(self).map@ == old(self).map@,
            final(self).queue@.len() == old(self).queue@.len() + 1,
            final(self).queue@[old(self).queue@.len() as int].spec_key() == key,
            final(self).queue@[old(self).queue@.len() as int].spec_value() == value,
            forall|j: int|
                0 <= j < old(self).queue@.len() ==> (#[trigger] final(self).queue@[j]).spec_key()
                    == old(self).queue@[j].spec_key() && final(self).queue@[j].spec_value()
                    == old(self).queue@[j].spec_value(),
    {
        let ghost o = self.order@;
        let n = self.queue.len();
        let old_tail = self.tail;
        self.queue.push(CacheEntry::new(old_tail, 0, key, value));
        let t = n as u32;
        if n > 0 {
            self.queue[old_tail as usize].set_next(t);
        } else {
            self.head = t;
        }
        self.tail = t;
        self.order = Ghost(o.push(t));
        proof {
            let o2 = o.push(t);
            assert forall|i: int| 0 <= i < n implies o2[i] == o[i] && o[i] < t by {}
            assert(o2.no_duplicates());
            assert forall|j: u32| j <= n implies #[trigger] o2.contains(j) by {
                if j < n {
                    assert(o.contains(j));
                    let i = o.index_of(j);
                    assert(o2[i] == j);
                } else {
                    assert(o2[n as int] == j);
                }
            }
            assert forall|i: int| 0 <= i < n implies (#[trigger] self.queue@[o2[i] as int]).spec_next()
                == o2[i + 1] by {
                if i < n - 1 {
                    assert(o[i] != o[n - 1]);
                }
            }
            assert forall|i: int| 0 < i <= n implies (#[trigger] self.queue@[o2[i] as int]).spec_previous()
                == o2[i - 1] by {}
        }
    }
}

} // verus!
