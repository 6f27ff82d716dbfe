//! A cache of fixed size in which a new entry takes the place of whatever shared its slot.

use vstd::prelude::*;
use crate::solver::NegamaxResult;

verus! {

/// The slot of key `k` in a table of `len` slots.
pub open spec fn slot_of(k: u64, len: int) -> int {
    (k as usize) as int % len
}

/// What a table of slots `t` answers for key `k`: the value in the key's
/// slot if the slot holds this very key, else nothing.
pub open spec fn lookup(t: Seq<Option<(u64, NegamaxResult)>>, k: u64) -> Option<NegamaxResult> {
    match t[slot_of(k, t.len() as int)] {
        Some((k0, v0)) => if k0 == k { Some(v0) } else { None },
        None => None,
    }
}

/// The slots after `(k, v)` was stored: the key's slot is overwritten.
pub open spec fn stored(t: Seq<Option<(u64, NegamaxResult)>>, k: u64, v: NegamaxResult) -> Seq<
    Option<(u64, NegamaxResult)>,
> {
    t.update(slot_of(k, t.len() as int), Some((k, v)))
}

/// A key is answered only from a slot that holds this very key: after
/// another key took its slot the table has no answer for it, and what was
/// stored last under a key is what the table answers.
pub proof fn lemma_collision_is_a_miss(
    t: Seq<Option<(u64, NegamaxResult)>>,
    k1: u64,
    k2: u64,
    v: NegamaxResult,
)
    requires
        t.len() > 0,
    ensures
        lookup(stored(t, k2, v), k2) == Some(v),
        k1 != k2 && slot_of(k1, t.len() as int) == slot_of(k2, t.len() as int) ==> lookup(stored(t, k2, v), k1).is_none(),
        slot_of(k1, t.len() as int) != slot_of(k2, t.len() as int) ==> lookup(stored(t, k2, v), k1) == lookup(t, k1),
        forall|w: NegamaxResult| lookup(t, k1) == Some(w) ==> t[slot_of(k1, t.len() as int)] == Some((k1, w)),
{
}

pub struct Table {
    t: Vec<Option<(u64, NegamaxResult)>>,
}

impl View for Table {
    type V = Seq<Option<(u64, NegamaxResult)>>;

    closed spec fn view(&self) -> Self::V {
        self.t@
    }
}

impl Table {
    /// A table of `size` empty slots.
    pub fn new(size: usize) -> (r: Self)
        ensures
            r@.len() == size,
            forall|i: int| 0 <= i < size ==> r@[i].is_none(),
    {
        let mut t: Vec<Option<(u64, NegamaxResult)>> = Vec::new();
        let mut i: usize = 0;
        while i < size
            invariant
                i <= size,
                t.len() == i,
                forall|j: int| 0 <= j < i ==> t[j].is_none(),
            decreases size - i,
        {
            t.push(None);
            i += 1;
        }
        Self { t }
    }

    /// Empties every slot.
    pub fn reset(&mut self)
        ensures
            final(self)@.len() == old(self)@.len(),
            forall|i: int| 0 <= i < final(self)@.len() ==> final(self)@[i].is_none(),
    {
        let n = self.t.len();
        let mut i: usize = 0;
        while i < n
            invariant
                i <= n,
                self.t.len() == n,
                forall|j: int| 0 <= j < i ==> self.t[j].is_none(),
            decreases n - i,
        {
            self.t.set(i, None);
            i += 1;
        }
    }

    /// The slot of key `k`.
    fn index(&self, k: u64) -> (i: usize)
        requires
            self@.len() > 0,
        ensures
            i == slot_of(k, self@.len() as int),
            i < self@.len(),
    {
        k as usize % self.t.len()
    }

    /// Stores `v` under `k`, whatever the slot held.
    pub fn put(&mut self, k: u64, v: NegamaxResult)
        requires
            old(self)@.len() > 0,
        ensures
            final(self)@ == stored(old(self)@, k, v),
    {
        let i = self.index(k);
        self.t.set(i, Some((k, v)));
    }

    /// The value stored under `k`, unless the slot is empty or holds another key.
    pub fn get(&self, k: u64) -> (r: Option<&NegamaxResult>)
        requires
            self@.len() > 0,
        ensures
            r == match lookup(self@, k) {
                Some(v) => Some(&v),
                None => None,
            },
    {
        let i = self.index(k);
        let curr = &self.t[i];
        if let Some((k0, v0)) = curr {
            if *k0 == k {
                Some(v0)
            } else {
                None
            }
        } else {
            None
        }
    }
}

} // verus!
