use vstd::prelude::*;

use crate::clock::{merged, ClockMap, VectorClock};

verus! {

/// What this node has causally observed: a counter per peer that never goes down.
pub struct ClockStore {
    clocks: VectorClock,
}

impl View for ClockStore {
    type V = ClockMap;

    closed spec fn view(&self) -> ClockMap {
        self.clocks@
    }
}

impl ClockStore {
    pub closed spec fn wf(&self) -> bool {
        self.clocks.wf()
    }

    /// A store that knows no peer.
    pub fn new() -> (r: ClockStore)
        ensures
            r.wf(),
            r@ == Map::<Seq<char>, u32>::empty(),
    {
        ClockStore { clocks: VectorClock::new() }
    }

    /// Adds `id` at zero if it is new; leaves a known peer as it is.
    pub fn register(&mut self, id: &String)
        requires
            old(self).wf(),
        ensures
            final(self).wf(),
            final(self)@ == (if old(self)@.contains_key(id@) {
                old(self)@
            } else {
                old(self)@.insert(id@, 0)
            }),
    {
        if self.clocks.get(id).is_none() {
            self.clocks.set(id.clone(), 0);
        }
    }

    /// Counts one more message of `id`, this node's own identity, and hands back a
    /// copy of the whole clock to stamp it with. `None`, with the store unchanged,
    /// where `id` was never registered or its counter is at its largest.
    pub fn self_increment(&mut self, id: &String) -> (r: Option<VectorClock>)
        requires
            old(self).wf(),
        ensures
            final(self).wf(),
            r is Some <==> old(self)@.contains_key(id@) && old(self)@[id@] < u32::MAX,
            r is None ==> final(self)@ == old(self)@,
            r matches Some(c) ==> c.wf() && final(self)@ == old(self)@.insert(
                id@,
                (old(self)@[id@] + 1) as u32,
            ) && c@ == final(self)@,
    {
        match self.clocks.get(id) {
            Some(v) => {
                if v < u32::MAX {
                    self.clocks.set(id.clone(), v + 1);
                    Some(self.clocks.copy())
                } else {
                    None
                }
            },
            None => None,
        }
    }

    /// Pointwise maximum with `update`, registering the peers only it knows. Tells
    /// whether any counter rose, a new peer counting as risen from zero.
    pub fn merge(&mut self, update: &VectorClock) -> (changed: bool)
        requires
            old(self).wf(),
            update.wf(),
        ensures
            final(self).wf(),
            final(self)@ == merged(old(self)@, update@),
            changed == crate::clock::raises(old(self)@, update@),
    {
        self.clocks.merge(update)
    }

    /// A copy of the store.
    pub fn copy(&self) -> (r: ClockStore)
        requires
            self.wf(),
        ensures
            r.wf(),
            r@ == self@,
    {
        ClockStore { clocks: self.clocks.copy() }
    }

    /// A copy of the clocks, to test messages against.
    pub fn snapshot(&self) -> (r: VectorClock)
        requires
            self.wf(),
        ensures
            r.wf(),
            r@ == self@,
    {
        self.clocks.copy()
    }

    /// The counter held for `id`, if the store knows `id`.
    pub fn get(&self, id: &String) -> (r: Option<u32>)
        requires
            self.wf(),
        ensures
            r == (if self@.contains_key(id@) {
                Some(self@[id@])
            } else {
                None::<u32>
            }),
    {
        self.clocks.get(id)
    }

    /// Whether a message may be delivered now.
    pub fn admits(&self, sender: &String, clocks: &VectorClock) -> (r: bool)
        requires
            self.wf(),
            clocks.wf(),
        ensures
            r == crate::clock::admits(self@, sender@, clocks@),
    {
        self.clocks.admits(sender, clocks)
    }
}

} // verus!
