//! Small illustrations of heap allocation and shared state: a recursive
//! list that boxes its tail, a cache that counts its hits and misses, and a
//! pair of growable lists mutated together.

use std::collections::HashMap;
use vstd::prelude::*;

verus! {

broadcast use vstd::std_specs::hash::group_hash_axioms;

/// A functional singly linked list: a head element followed by a boxed
/// tail. Without the box the type would have to contain itself; behind a
/// pointer its size is a constant.
pub enum FuncList<T> {
    Nil,
    Cons(T, Box<FuncList<T>>),
}

/// A lookup table that also counts how often a query hits or misses.
/// The counters are plain fields that queries update in place, so a query
/// borrows the cache mutably; the counters saturate at the largest
/// representable value rather than wrap.
pub struct Cache {
    cache: HashMap<usize, usize>,
    hits: usize,
    misses: usize,
}

impl Cache {
    /// The stored associations.
    pub closed spec fn entries(self) -> Map<usize, usize> {
        self.cache@
    }

    /// How many queries found their key.
    pub closed spec fn hit_count(self) -> nat {
        self.hits as nat
    }

    /// How many queries missed.
    pub closed spec fn miss_count(self) -> nat {
        self.misses as nat
    }

    /// An empty cache with both counters at zero.
    pub fn new() -> (r: Self)
        ensures
            r.entries() == Map::<usize, usize>::empty(),
            r.hit_count() == 0,
            r.miss_count() == 0,
    {
        Self { cache: HashMap::new(), hits: 0, misses: 0 }
    }

    /// Stores `y` under `x`, replacing any previous association for `x`.
    pub fn save(&mut self, x: usize, y: usize)
        ensures
            final(self).entries() == old(self).entries().insert(x, y),
            final(self).hit_count() == old(self).hit_count(),
            final(self).miss_count() == old(self).miss_count(),
    {
        self.cache.insert(x, y);
    }

    /// How many queries found their key so far.
    pub fn hits(&self) -> (r: usize)
        ensures
            r == self.hit_count(),
    {
        self.hits
    }

    /// How many queries missed so far.
    pub fn misses(&self) -> (r: usize)
        ensures
            r == self.miss_count(),
    {
        self.misses
    }

    /// Looks `x` up and counts the outcome: the value stored under `x` and
    /// one more hit, or nothing and one more miss.
    pub fn query(&mut self, x: usize) -> (r: Option<usize>)
        ensures
            final(self).entries() == old(self).entries(),
            match r {
                Some(y) => old(self).entries().contains_key(x) && y == old(self).entries()[x]
                    && final(self).hit_count() == if old(self).hit_count() < usize::MAX {
                    old(self).hit_count() + 1
                } else {
                    old(self).hit_count()
                } && final(self).miss_count() == old(self).miss_count(),
                None => !old(self).entries().contains_key(x) && final(self).miss_count() == if old(
                    self,
                ).miss_count() < usize::MAX {
                    old(self).miss_count() + 1
                } else {
                    old(self).miss_count()
                } && final(self).hit_count() == old(self).hit_count(),
            },
    {
        match self.cache.get(&x) {
            Some(y) => {
                let found: usize = *y;
                if self.hits < usize::MAX {
                    self.hits = self.hits + 1;
                }
                Some(found)
            },
            None => {
                if self.misses < usize::MAX {
                    self.misses = self.misses + 1;
                }
                None
            },
        }
    }
}

/// Two growable lists that one call extends together. Shared mutation
/// through an immutable handle cannot be checked, so here the pair is owned
/// directly and the method borrows it mutably; the name records the shape
/// of the interface this illustrates.
pub struct RefCellExample {
    previous: Vec<usize>,
    next_values: Vec<usize>,
}

impl RefCellExample {
    /// The first list.
    pub closed spec fn previous_view(self) -> Seq<usize> {
        self.previous@
    }

    /// The second list.
    pub closed spec fn next_view(self) -> Seq<usize> {
        self.next_values@
    }

    /// Two empty lists.
    pub fn new() -> (r: Self)
        ensures
            r.previous_view() == Seq::<usize>::empty(),
            r.next_view() == Seq::<usize>::empty(),
    {
        Self { previous: Vec::new(), next_values: Vec::new() }
    }

    /// Appends one element to each list.
    pub fn modify_with_immut_self(&mut self)
        ensures
            final(self).previous_view() == old(self).previous_view().push(3),
            final(self).next_view() == old(self).next_view().push(4),
    {
        self.previous.push(3);
        self.next_values.push(4);
    }

    /// A copy of the first list's contents.
    pub fn previous_items(&self) -> (r: Vec<usize>)
        ensures
            r@ == self.previous_view(),
    {
        let mut out: Vec<usize> = Vec::new();
        let n = self.previous.len();
        for k in 0..n
            invariant
                n == self.previous_view().len(),
                out@ == self.previous_view().take(k as int),
        {
            out.push(self.previous[k]);
        }
        out
    }

    /// A copy of the second list's contents.
    pub fn next_items(&self) -> (r: Vec<usize>)
        ensures
            r@ == self.next_view(),
    {
        let mut out: Vec<usize> = Vec::new();
        let n = self.next_values.len();
        for k in 0..n
            invariant
                n == self.next_view().len(),
                out@ == self.next_view().take(k as int),
        {
            out.push(self.next_values[k]);
        }
        out
    }
}

} // verus!
