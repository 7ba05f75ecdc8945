//! A slot arena with stable integer handles and a free list.
//!
//! Slots freed by `remove` are recycled by later `insert`s, but a handle is
//! never reused while it is still live, so a handle stays valid exactly as
//! long as the value it was returned for. The arena is viewed as a map from
//! live handles to values.

use vstd::prelude::*;
use vstd::pervasive::VecAdditionalExecFns;

verus! {

pub struct Arena<T> {
    slots: Vec<Option<T>>,
    free: Vec<usize>,
}

impl<T> View for Arena<T> {
    type V = Map<usize, T>;

    closed spec fn view(&self) -> Map<usize, T> {
        Map::new(
            |i: usize| i < self.slots.len() && self.slots[i as int] is Some,
            |i: usize| self.slots[i as int]->0,
        )
    }
}

impl<T> Arena<T> {
    /// Free-list entries are exactly backed by empty slots and never repeat.
    pub closed spec fn wf(&self) -> bool {
        &&& forall|k: int|
            0 <= k < self.free.len() ==> (#[trigger] self.free[k]) < self.slots.len()
                && self.slots[self.free[k] as int] is None
        &&& forall|k1: int, k2: int|
            0 <= k1 < k2 < self.free.len() ==> self.free[k1] != self.free[k2]
    }

    pub fn new() -> (r: Arena<T>)
        ensures
            r.wf(),
            r@ == Map::<usize, T>::empty(),
    {
        let r = Arena { slots: Vec::new(), free: Vec::new() };
        proof {
            assert(r@ =~= Map::<usize, T>::empty());
        }
        r
    }

    pub fn contains(&self, id: usize) -> (r: bool)
        ensures
            r == self@.dom().contains(id),
    {
        id < self.slots.len() && self.slots[id].is_some()
    }

    /// Stores a value in an empty slot and hands back its fresh handle.
    pub fn insert(&mut self, value: T) -> (id: usize)
        requires
            old(self).wf(),
        ensures
            final(self).wf(),
            !old(self)@.dom().contains(id),
            final(self)@ == old(self)@.insert(id, value),
    {
        match self.free.pop() {
            Some(id) => {
                self.slots.set(id, Some(value));
                proof {
                    assert(self@ =~= old(self)@.insert(id, value));
                }
                id
            }
            None => {
                let id = self.slots.len();
                self.slots.push(Some(value));
                proof {
                    assert(self@ =~= old(self)@.insert(id, value));
                }
                id
            }
        }
    }

    /// Empties the slot of a live handle; a dead handle is answered with
    /// `None` and nothing changes.
    pub fn remove(&mut self, id: usize) -> (r: Option<T>)
        requires
            old(self).wf(),
        ensures
            final(self).wf(),
            old(self)@.dom().contains(id) ==> r == Some(old(self)@[id])
                && final(self)@ == old(self)@.remove(id),
            !old(self)@.dom().contains(id) ==> r is None && final(self)@ == old(self)@,
    {
        if id < self.slots.len() {
            let mut taken: Option<T> = None;
            self.slots.set_and_swap(id, &mut taken);
            match taken {
                Some(value) => {
                    self.free.push(id);
                    proof {
                        assert(self@ =~= old(self)@.remove(id));
                    }
                    Some(value)
                }
                None => {
                    proof {
                        assert(self.slots@ =~= old(self).slots@);
                        assert(self@ =~= old(self)@);
                    }
                    None
                }
            }
        } else {
            None
        }
    }

    /// Swaps the value of a live handle, returning the one it held.
    pub fn swap_at(&mut self, id: usize, value: T) -> (r: T)
        requires
            old(self).wf(),
            old(self)@.dom().contains(id),
        ensures
            final(self).wf(),
            r == old(self)@[id],
            final(self)@ == old(self)@.insert(id, value),
    {
        let mut taken: Option<T> = Some(value);
        self.slots.set_and_swap(id, &mut taken);
        proof {
            assert(self@ =~= old(self)@.insert(id, value));
        }
        taken.unwrap()
    }

    pub fn get(&self, id: usize) -> (r: Option<&T>)
        ensures
            self@.dom().contains(id) ==> r == Some(&self@[id]),
            !self@.dom().contains(id) ==> r is None,
    {
        if id < self.slots.len() {
            self.slots[id].as_ref()
        } else {
            None
        }
    }
}

} // verus!
