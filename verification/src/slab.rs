//! A table that hands out the keys of its entries and reuses the keys of those
//! that were removed.
use vstd::prelude::*;

verus! {

/// A table of values, each found by the key that [`Slab::insert`] gave it.
pub(crate) struct Slab<V> {
    slots: Vec<Option<V>>,
    free: Vec<usize>,
    count: usize,
}

impl<V> View for Slab<V> {
    type V = Map<usize, V>;

    closed spec fn view(&self) -> Map<usize, V> {
        Map::new(
            |key: usize| key < self.slots@.len() && self.slots@[key as int] is Some,
            |key: usize| self.slots@[key as int]->0,
        )
    }
}

impl<V> Slab<V> {
    /// Every empty slot is on the free list once, and the entries are counted.
    pub closed spec fn wf(&self) -> bool {
        &&& forall|i: int| 0 <= i < self.free@.len() ==> {
            &&& #[trigger] self.free@[i] < self.slots@.len()
            &&& self.slots@[self.free@[i] as int] is None
        }
        &&& self.free@.no_duplicates()
        &&& self.slots@.len() == self.count + self.free@.len()
        &&& self@.dom().finite()
        &&& self@.dom().len() == self.count
    }

    /// A table has finitely many entries.
    pub(crate) proof fn lemma_finite(&self)
        requires
            self.wf(),
        ensures
            self@.dom().finite(),
    {
    }

    /// An empty table.
    pub(crate) fn new() -> (slab: Self)
        ensures
            slab.wf(),
            slab@ == Map::<usize, V>::empty(),
    {
        let slab = Slab { slots: Vec::new(), free: Vec::new(), count: 0 };
        assert(slab@ =~= Map::<usize, V>::empty());
        assert(slab@.dom() =~= Set::<usize>::empty());
        slab
    }

    /// The number of entries.
    pub(crate) fn len(&self) -> (count: usize)
        requires
            self.wf(),
        ensures
            count == self@.dom().len(),
            self@.dom().finite(),
    {
        self.count
    }

    /// A bound on the keys: those in use are all below it.
    pub(crate) fn bound(&self) -> (bound: usize)
        ensures
            forall|key: usize| #[trigger] self@.contains_key(key) ==> key < bound,
    {
        self.slots.len()
    }

    /// Whether the key is in use.
    pub(crate) fn contains(&self, key: usize) -> (found: bool)
        ensures
            found == self@.contains_key(key),
    {
        key < self.slots.len() && self.slots[key].is_some()
    }

    /// Adds a value under a key that was not in use.
    pub(crate) fn insert(&mut self, value: V) -> (key: usize)
        requires
            old(self).wf(),
        ensures
            final(self).wf(),
            !old(self)@.contains_key(key),
            final(self)@ == old(self)@.insert(key, value),
    {
        let ghost before = self@;
        match self.free.pop() {
            Some(key) => {
                proof {
                    assert(old(self).free@[old(self).free@.len() - 1] == key);
                }
                self.slots.set(key, Some(value));
                self.count = self.count + 1;
                proof {
                    assert(self@ =~= before.insert(key, value));
                    assert(self@.dom() =~= before.dom().insert(key));
                }
                key
            },
            None => {
                let key = self.slots.len();
                self.slots.push(Some(value));
                let grown = self.slots.len();
                self.count = grown;
                proof {
                    assert(self@ =~= before.insert(key, value));
                    assert(self@.dom() =~= before.dom().insert(key));
                }
                key
            },
        }
    }

    /// Takes the value out; its key may be given out again.
    pub(crate) fn remove(&mut self, key: usize) -> (value: V)
        requires
            old(self).wf(),
            old(self)@.contains_key(key),
        ensures
            final(self).wf(),
            value == old(self)@[key],
            final(self)@ == old(self)@.remove(key),
    {
        let ghost before = self@;
        let mut slot: Option<V> = None;
        std::mem::swap(&mut slot, &mut self.slots[key]);
        self.free.push(key);
        self.count = self.count - 1;
        proof {
            assert(self@ =~= before.remove(key));
            assert(self@.dom() =~= before.dom().remove(key));
        }
        slot.unwrap()
    }

    /// The value under the key.
    pub(crate) fn get(&self, key: usize) -> (value: &V)
        requires
            self@.contains_key(key),
        ensures
            *value == self@[key],
    {
        self.slots[key].as_ref().unwrap()
    }

    /// The value under the key, to be changed in place.
    pub(crate) fn get_mut(&mut self, key: usize) -> (value: &mut V)
        requires
            old(self).wf(),
            old(self)@.contains_key(key),
        ensures
            *value == old(self)@[key],
            final(self)@ == old(self)@.insert(key, *final(value)),
            final(self).wf(),
    {
        proof {
            assert forall|after: Self|
                after.free == self.free && after.count == self.count && after.slots@
                    == self.slots@.update(key as int, after.slots@[key as int])
                    && after.slots@[key as int] is Some implies #[trigger] after.wf() by {
                assert(after@.dom() =~= self@.dom());
            }
        }
        match &mut self.slots[key] {
            Some(value) => value,
            None => { vstd::pervasive::unreached() },
        }
    }
}

} // verus!
