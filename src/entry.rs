//! One slot of the arena: a key, a value and two recency links.
use vstd::prelude::*;

verus! {

/// A slot of the arena. `prev` names the neighbour towards the most recently
/// used end of the recency list, `next` the neighbour towards the least
/// recently used end.
pub struct CacheEntry<K, V> {
    prev: u32,
    next: u32,
    key: K,
    val: V,
}

impl<K, V> CacheEntry<K, V> {
    /// The slot index of the more recently used neighbour.
    pub closed spec fn spec_previous(&self) -> u32 {
        self.prev
    }

    /// The slot index of the less recently used neighbour.
    pub closed spec fn spec_next(&self) -> u32 {
        self.next
    }

    /// The key stored in the slot.
    pub closed spec fn spec_key(&self) -> K {
        self.key
    }

    /// The value stored in the slot.
    pub closed spec fn spec_value(&self) -> V {
        self.val
    }

    /// A slot holding `key` and `val`, linked to `prev` and `next`.
    pub fn new(prev: u32, next: u32, key: K, val: V) -> (r: Self)
        ensures
            r.spec_previous() == prev,
            r.spec_next() == next,
            r.spec_key() == key,
            r.spec_value() == val,
    {
        CacheEntry { prev, next, key, val }
    }

    /// Links the slot to a new more recently used neighbour.
    pub fn set_previous(&mut self, prev: u32)
        ensures
            final(self).spec_previous() == prev,
            final(self).spec_next() == old(self).spec_next(),
            final(self).spec_key() == old(self).spec_key(),
            final(self).spec_value() == old(self).spec_value(),
    {
        self.prev = prev;
    }

    /// Links the slot to a new less recently used neighbour.
    pub fn set_next(&mut self, next: u32)
        ensures
            final(self).spec_previous() == old(self).spec_previous(),
            final(self).spec_next() == next,
            final(self).spec_key() == old(self).spec_key(),
            final(self).spec_value() == old(self).spec_value(),
    {
        self.next = next;
    }

    /// Replaces the key stored in the slot.
    pub fn set_key(&mut self, key: K)
        ensures
            final(self).spec_previous() == old(self).spec_previous(),
            final(self).spec_next() == old(self).spec_next(),
            final(self).spec_key() == key,
            final(self).spec_value() == old(self).spec_value(),
    {
        self.key = key;
    }

    /// Replaces the value stored in the slot.
    pub fn set_value(&mut self, val: V)
        ensures
            final(self).spec_previous() == old(self).spec_previous(),
            final(self).spec_next() == old(self).spec_next(),
            final(self).spec_key() == old(self).spec_key(),
            final(self).spec_value() == val,
    {
        self.val = val;
    }

    /// The slot index of the more recently used neighbour.
    pub fn previous(&self) -> (r: u32)
        ensures
            r == self.spec_previous(),
    {
        self.prev
    }

    /// The slot index of the less recently used neighbour.
    pub fn next(&self) -> (r: u32)
        ensures
            r == self.spec_next(),
    {
        self.next
    }

    /// The key stored in the slot.
    pub fn key(&self) -> (r: &K)
        ensures
            *r == self.spec_key(),
    {
        &self.key
    }

    /// The value stored in the slot.
    pub fn value(&self) -> (r: &V)
        ensures
            *r == self.spec_value(),
    {
        &self.val
    }
}

} // verus!
