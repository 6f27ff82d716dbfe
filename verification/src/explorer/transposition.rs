//! A cache of fixed size that can keep what it evicts.

use vstd::prelude::*;
use std::collections::HashMap;

verus! {

broadcast use vstd::std_specs::hash::group_hash_axioms;

/// The slot of key `k` in a table of `len` slots.
pub open spec fn slot_of(k: u64, len: int) -> int {
    (k as usize) as int % len
}

/// What a table of slots `t` answers for key `k`: the score in the key's
/// slot if the slot holds this very key, else nothing.
pub open spec fn lookup(t: Seq<Option<(u64, i8)>>, k: u64) -> Option<i8> {
    match t[slot_of(k, t.len() as int)] {
        Some((k0, v0)) => if k0 == k { Some(v0) } else { None },
        None => None,
    }
}

/// The side book after `(k, v)` was stored with `save`: what the key's slot
/// held before goes there if `save` is set.
pub open spec fn saved(t: Seq<Option<(u64, i8)>>, book: Map<u64, i8>, k: u64, save: bool) -> Map<
    u64,
    i8,
> {
    match t[slot_of(k, t.len() as int)] {
        Some((k0, v0)) => if save { book.insert(k0, v0) } else { book },
        None => book,
    }
}

/// A key is answered only from a slot that holds this very key.
pub proof fn lemma_collision_is_a_miss(t: Seq<Option<(u64, i8)>>, k1: u64, k2: u64, v: i8)
    requires
        t.len() > 0,
    ensures
        lookup(t.update(slot_of(k2, t.len() as int), Some((k2, v))), k2) == Some(v),
        k1 != k2 && slot_of(k1, t.len() as int) == slot_of(k2, t.len() as int) ==> lookup(
            t.update(slot_of(k2, t.len() as int), Some((k2, v))),
            k1,
        ).is_none(),
{
}

pub struct TranspositionTable {
    t: Vec<Option<(u64, i8)>>,
    book: HashMap<u64, i8>,
}

impl TranspositionTable {
    /// The slots.
    pub closed spec fn slots(&self) -> Seq<Option<(u64, i8)>> {
        self.t@
    }

    /// What was evicted and kept.
    pub closed spec fn kept(&self) -> Map<u64, i8> {
        self.book@
    }

    /// Whether every score in the slots lies within `limit` of zero.
    pub open spec fn within(&self, limit: int) -> bool {
        forall|i: int| 0 <= i < self.slots().len() ==> match #[trigger] self.slots()[i] {
            Some((_, v)) => -limit <= v <= limit,
            None => true,
        }
    }

    /// A table of `size` empty slots that has kept nothing.
    pub fn new(size: usize) -> (r: Self)
        ensures
            r.slots().len() == size,
            forall|i: int| 0 <= i < size ==> r.slots()[i].is_none(),
            r.kept() == Map::<u64, i8>::empty(),
    {
        let mut t: Vec<Option<(u64, i8)>> = Vec::new();
        let mut i: usize = 0;
        while i < size
            invariant
                i <= size,
                t.len() == i,
                forall|j: int| 0 <= j < i ==> t[j].is_none(),
            decreases size - i,
        {
            t.push(None);
            i += 1;
        }
        Self { t, book: HashMap::with_capacity(1 << 22) }
    }

    /// Empties every slot; what was kept stays.
    pub fn reset(&mut self)
        ensures
            final(self).slots().len() == old(self).slots().len(),
            forall|i: int| 0 <= i < final(self).slots().len() ==> final(self).slots()[i].is_none(),
            final(self).kept() == old(self).kept(),
    {
        let n = self.t.len();
        let mut i: usize = 0;
        while i < n
            invariant
                i <= n,
                self.t.len() == n,
                self.book == old(self).book,
                forall|j: int| 0 <= j < i ==> self.t[j].is_none(),
            decreases n - i,
        {
            self.t.set(i, None);
            i += 1;
        }
    }

    /// The slot of key `k`.
    fn index(&self, k: u64) -> (i: usize)
        requires
            self.slots().len() > 0,
        ensures
            i == slot_of(k, self.slots().len() as int),
            i < self.slots().len(),
    {
        k as usize % self.t.len()
    }

    /// Stores `v` under `k`. What the slot held is kept if `save` is set, and lost if not.
    pub fn put(&mut self, k: u64, v: i8, save: bool)
        requires
            old(self).slots().len() > 0,
        ensures
            final(self).slots() == old(self).slots().update(
                slot_of(k, old(self).slots().len() as int),
                Some((k, v)),
            ),
            final(self).kept() == saved(old(self).slots(), old(self).kept(), k, save),
    {
        let i = self.index(k);
        let curr = self.t[i];
        if let Some((k0, v0)) = curr {
            if save {
                self.book.insert(k0, v0);
            }
        }
        self.t.set(i, Some((k, v)));
    }

    /// The score stored under `k`, unless the slot is empty or holds another key.
    pub fn get(&self, k: u64) -> (r: Option<i8>)
        requires
            self.slots().len() > 0,
        ensures
            r == lookup(self.slots(), k),
    {
        let i = self.index(k);
        let curr = self.t[i];
        if let Some((stored_k, v)) = curr {
            if stored_k == k {
                Some(v)
            } else {
                None
            }
        } else {
            None
        }
    }
}

} // verus!
