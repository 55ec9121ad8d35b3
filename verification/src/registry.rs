//! The response registry: a table from identifiers to pending connections,
//! with identifiers drawn from a counter that never repeats.

use vstd::prelude::*;
use std::collections::HashMap;

verus! {

broadcast use vstd::std_specs::hash::group_hash_axioms;

/// The id-to-connection table, generic over what stands for a connection.
/// The next identifier is a counter that only grows, so an id is never
/// reused while its entry exists.
pub struct Registry<V> {
    next_id: u64,
    pending: HashMap<u64, V>,
}

impl<V> Registry<V> {
    /// The value of the allocation counter.
    pub closed spec fn counter(&self) -> u64 {
        self.next_id
    }

    /// The table of pending entries.
    pub closed spec fn table(&self) -> Map<u64, V> {
        self.pending@
    }

    /// Every registered id was allocated before the current counter.
    pub open spec fn wf(&self) -> bool {
        forall|k: u64| #[trigger] self.table().contains_key(k) ==> k < self.counter()
    }

    /// A fresh registry: no entries, the first id to hand out is zero.
    pub fn new() -> (r: Registry<V>)
        ensures
            r.counter() == 0,
            r.table() == Map::<u64, V>::empty(),
            r.wf(),
    {
        Registry { next_id: 0, pending: HashMap::new() }
    }

    /// The id the next allocation will return.
    pub fn counter_value(&self) -> (r: u64)
        ensures
            r == self.counter(),
    {
        self.next_id
    }

    /// Hands out the next identifier. Ids strictly increase from call to
    /// call, so no two calls return the same id, and a fresh registry
    /// returns 0 first.
    pub fn allocate(&mut self) -> (id: u64)
        requires
            old(self).counter() < u64::MAX,
            old(self).wf(),
        ensures
            id == old(self).counter(),
            final(self).counter() == id + 1,
            final(self).table() == old(self).table(),
            !final(self).table().contains_key(id),
            final(self).wf(),
    {
        let id = self.next_id;
        self.next_id = self.next_id + 1;
        id
    }

    /// Stores a connection under an id the counter has already passed.
    pub fn register(&mut self, id: u64, conn: V)
        requires
            old(self).wf(),
            id < old(self).counter(),
        ensures
            final(self).counter() == old(self).counter(),
            final(self).table() == old(self).table().insert(id, conn),
            final(self).wf(),
    {
        self.pending.insert(id, conn);
    }

    /// Removes and returns the entry under `id`: present exactly when the
    /// id is registered, and gone afterwards, so a second take of the
    /// same id returns nothing.
    pub fn take(&mut self, id: u64) -> (r: Option<V>)
        requires
            old(self).wf(),
        ensures
            final(self).counter() == old(self).counter(),
            final(self).table() == old(self).table().remove(id),
            !final(self).table().contains_key(id),
            (match r {
                Some(v) => old(self).table().contains_key(id) && v == old(self).table()[id],
                None => !old(self).table().contains_key(id),
            }),
            final(self).wf(),
    {
        self.pending.remove(&id)
    }
}

/// Taking an id consumes it: whatever the table held, after one removal
/// the id is absent, so a second `take` of the same id returns `None`.
pub proof fn lemma_take_at_most_once<V>(table: Map<u64, V>, id: u64)
    ensures
        !table.remove(id).contains_key(id),
{
}

/// Ids strictly increase across allocations. `allocate` returns the
/// counter of the moment and leaves it one higher, and no operation ever
/// lowers it, so of two allocations the later returns the strictly larger
/// id; with `new` starting the counter at 0, the first id handed out is 0.
pub proof fn lemma_allocate_monotonic(counter_at_first: u64, counter_at_second: u64, first_id: u64, second_id: u64)
    requires
        first_id == counter_at_first,
        counter_at_second >= counter_at_first + 1,
        second_id == counter_at_second,
    ensures
        second_id > first_id,
{
}

} // verus!
