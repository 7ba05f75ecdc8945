//! A time-ordered queue with stable handles.
//!
//! Elements live in an arena and keep the handle they were inserted with for
//! their whole lifetime, so a handle can be used to remove or read an element
//! in the middle of the queue long after later insertions and removals.
//! The queue is viewed as a sequence of `(handle, value)` pairs from front to
//! back; handle misuse (a dead or recycled handle) is answered with `None`.

use vstd::prelude::*;
use crate::arena::Arena;

verus! {

pub struct SlabLinkedList<T> {
    arena: Arena<T>,
    order: Vec<usize>,
}

impl<T> View for SlabLinkedList<T> {
    type V = Seq<(usize, T)>;

    closed spec fn view(&self) -> Seq<(usize, T)> {
        Seq::new(self.order@.len(), |k: int| (self.order@[k], self.arena@[self.order@[k]]))
    }
}

impl<T> SlabLinkedList<T> {
    /// The handles of the queued elements, front to back.
    pub open spec fn ids(&self) -> Seq<usize> {
        self@.map_values(|e: (usize, T)| e.0)
    }

    /// The queued values, front to back.
    pub open spec fn vals(&self) -> Seq<T> {
        self@.map_values(|e: (usize, T)| e.1)
    }

    pub closed spec fn wf(&self) -> bool {
        &&& self.arena.wf()
        &&& forall|k: int|
            0 <= k < self.order@.len() ==> self.arena@.dom().contains(#[trigger] self.order@[k])
        &&& forall|k1: int, k2: int|
            0 <= k1 < k2 < self.order@.len() ==> self.order@[k1] != self.order@[k2]
        &&& forall|id: usize|
            #[trigger] self.arena@.dom().contains(id) ==> self.order@.contains(id)
    }

    /// No handle occurs twice in the queue.
    pub proof fn lemma_ids_distinct(&self)
        requires
            self.wf(),
        ensures
            forall|k1: int, k2: int|
                0 <= k1 < k2 < self.ids().len() ==> self.ids()[k1] != self.ids()[k2],
    {
    }

    pub fn new() -> (r: SlabLinkedList<T>)
        ensures
            r.wf(),
            r@ == Seq::<(usize, T)>::empty(),
    {
        let r = SlabLinkedList { arena: Arena::new(), order: Vec::new() };
        proof {
            assert(r@ =~= Seq::<(usize, T)>::empty());
        }
        r
    }

    pub fn is_empty(&self) -> (r: bool)
        ensures
            r == (self@.len() == 0),
    {
        self.order.len() == 0
    }

    pub fn len(&self) -> (r: usize)
        ensures
            r == self@.len(),
    {
        self.order.len()
    }

    pub fn front(&self) -> (r: Option<&T>)
        requires
            self.wf(),
        ensures
            self@.len() == 0 ==> r is None,
            self@.len() > 0 ==> r == Some(&self@[0].1),
    {
        if self.order.len() == 0 {
            None
        } else {
            self.arena.get(self.order[0])
        }
    }

    pub fn back(&self) -> (r: Option<&T>)
        requires
            self.wf(),
        ensures
            self@.len() == 0 ==> r is None,
            self@.len() > 0 ==> r == Some(&self@[self@.len() - 1].1),
    {
        if self.order.len() == 0 {
            None
        } else {
            self.arena.get(self.order[self.order.len() - 1])
        }
    }

    pub fn push_back(&mut self, value: T) -> (id: usize)
        requires
            old(self).wf(),
        ensures
            final(self).wf(),
            !old(self).ids().contains(id),
            final(self)@ == old(self)@.push((id, value)),
    {
        let id = self.arena.insert(value);
        self.order.push(id);
        proof {
            assert forall|id2: usize| #[trigger] self.arena@.dom().contains(id2)
                implies self.order@.contains(id2) by {
                if id2 == id {
                    assert(self.order@[self.order@.len() - 1] == id);
                } else {
                    let j = choose|j: int| 0 <= j < old(self).order@.len()
                        && old(self).order@[j] == id2;
                    assert(self.order@[j] == id2);
                }
            }
            assert(!old(self).ids().contains(id)) by {
                if old(self).ids().contains(id) {
                    let k = choose|k: int| 0 <= k < old(self).ids().len()
                        && old(self).ids()[k] == id;
                    assert(old(self).order@[k] == id);
                }
            }
            assert(self@ =~= old(self)@.push((id, value)));
        }
        id
    }

    pub fn push_front(&mut self, value: T) -> (id: usize)
        requires
            old(self).wf(),
        ensures
            final(self).wf(),
            !old(self).ids().contains(id),
            final(self)@ == seq![(id, value)] + old(self)@,
    {
        let id = self.arena.insert(value);
        self.order.insert(0, id);
        proof {
            assert forall|id2: usize| #[trigger] self.arena@.dom().contains(id2)
                implies self.order@.contains(id2) by {
                if id2 == id {
                    assert(self.order@[0] == id);
                } else {
                    let j = choose|j: int| 0 <= j < old(self).order@.len()
                        && old(self).order@[j] == id2;
                    assert(self.order@[j + 1] == id2);
                }
            }
            assert(!old(self).ids().contains(id)) by {
                if old(self).ids().contains(id) {
                    let k = choose|k: int| 0 <= k < old(self).ids().len()
                        && old(self).ids()[k] == id;
                    assert(old(self).order@[k] == id);
                }
            }
            assert(self@ =~= seq![(id, value)] + old(self)@);
        }
        id
    }

    pub fn pop_front(&mut self) -> (r: Option<T>)
        requires
            old(self).wf(),
        ensures
            final(self).wf(),
            old(self)@.len() == 0 ==> r is None && final(self)@ == old(self)@,
            old(self)@.len() > 0 ==> r == Some(old(self)@[0].1)
                && final(self)@ == old(self)@.subrange(1, old(self)@.len() as int),
    {
        if self.order.len() == 0 {
            None
        } else {
            let id = self.order.remove(0);
            let value = self.arena.remove(id);
            proof {
                assert forall|id2: usize| #[trigger] self.arena@.dom().contains(id2)
                    implies self.order@.contains(id2) by {
                    let j = choose|j: int| 0 <= j < old(self).order@.len()
                        && old(self).order@[j] == id2;
                    assert(self.order@[j - 1] == id2);
                }
                assert(self@ =~= old(self)@.subrange(1, old(self)@.len() as int));
            }
            Some(value.unwrap())
        }
    }

    pub fn pop_back(&mut self) -> (r: Option<T>)
        requires
            old(self).wf(),
        ensures
            final(self).wf(),
            old(self)@.len() == 0 ==> r is None && final(self)@ == old(self)@,
            old(self)@.len() > 0 ==> r == Some(old(self)@[old(self)@.len() - 1].1)
                && final(self)@ == old(self)@.subrange(0, old(self)@.len() - 1),
    {
        match self.order.pop() {
            None => None,
            Some(id) => {
                let value = self.arena.remove(id);
                proof {
                    assert forall|id2: usize| #[trigger] self.arena@.dom().contains(id2)
                        implies self.order@.contains(id2) by {
                        let j = choose|j: int| 0 <= j < old(self).order@.len()
                            && old(self).order@[j] == id2;
                        assert(self.order@[j] == id2);
                    }
                    assert(self@ =~= old(self)@.subrange(0, old(self)@.len() - 1));
                }
                Some(value.unwrap())
            }
        }
    }

    /// Removes the element a live handle refers to; repeated removal through
    /// the same handle, or a stale handle, yields `None` and changes nothing.
    pub fn remove(&mut self, node_id: usize) -> (r: Option<T>)
        requires
            old(self).wf(),
        ensures
            final(self).wf(),
            old(self).ids().contains(node_id) ==> ({
                let k = old(self).ids().index_of(node_id);
                r == Some(old(self)@[k].1) && final(self)@ == old(self)@.remove(k)
            }),
            !old(self).ids().contains(node_id) ==> r is None && final(self)@ == old(self)@,
    {
        proof {
            assert(old(self).ids().contains(node_id)
                <==> old(self).arena@.dom().contains(node_id)) by {
                if old(self).ids().contains(node_id) {
                    let k = choose|k: int| 0 <= k < old(self).ids().len()
                        && old(self).ids()[k] == node_id;
                    assert(old(self).order@[k] == node_id);
                }
                if old(self).arena@.dom().contains(node_id) {
                    let j = choose|j: int| 0 <= j < old(self).order@.len()
                        && old(self).order@[j] == node_id;
                    assert(old(self).ids()[j] == node_id);
                }
            }
        }
        match self.arena.remove(node_id) {
            None => {
                proof {
                    assert(self@ =~= old(self)@);
                }
                None
            }
            Some(value) => {
                let mut k: usize = 0;
                while k < self.order.len() && self.order[k] != node_id
                    invariant
                        k <= self.order@.len(),
                        self.order@ == old(self).order@,
                        forall|j: int| 0 <= j < k ==> self.order@[j] != node_id,
                    decreases self.order@.len() - k,
                {
                    k += 1;
                }
                proof {
                    let j = choose|j: int| 0 <= j < old(self).order@.len()
                        && old(self).order@[j] == node_id;
                    assert(k < self.order@.len() && self.order@[k as int] == node_id);
                    let ks = old(self).ids().index_of(node_id);
                    assert(old(self).ids()[k as int] == node_id);
                    assert(0 <= ks < old(self).ids().len() && old(self).ids()[ks] == node_id);
                    assert(old(self).order@[ks] == node_id);
                    assert(ks == k);
                }
                self.order.remove(k);
                proof {
                    assert forall|id2: usize| #[trigger] self.arena@.dom().contains(id2)
                        implies self.order@.contains(id2) by {
                        let j = choose|j: int| 0 <= j < old(self).order@.len()
                            && old(self).order@[j] == id2;
                        if j < k {
                            assert(self.order@[j] == id2);
                        } else {
                            assert(self.order@[j - 1] == id2);
                        }
                    }
                    assert(self@ =~= old(self)@.remove(k as int));
                }
                Some(value)
            }
        }
    }

    pub fn get(&self, node_id: usize) -> (r: Option<&T>)
        requires
            self.wf(),
        ensures
            self.ids().contains(node_id) ==> r == Some(&self@[self.ids().index_of(node_id)].1),
            !self.ids().contains(node_id) ==> r is None,
    {
        proof {
            if self.arena@.dom().contains(node_id) {
                let j = choose|j: int| 0 <= j < self.order@.len()
                    && self.order@[j] == node_id;
                assert(self.ids()[j] == node_id);
                let ks = self.ids().index_of(node_id);
                assert(self.order@[ks] == node_id);
                assert(self@[ks].1 == self.arena@[node_id]);
            }
            if self.ids().contains(node_id) {
                let k = choose|k: int| 0 <= k < self.ids().len() && self.ids()[k] == node_id;
                assert(self.order@[k] == node_id);
            }
        }
        self.arena.get(node_id)
    }

    /// Replaces the value behind a live handle, returning the old value;
    /// the queue order and every handle are untouched. A dead handle is
    /// answered with `None` and nothing changes.
    pub fn replace(&mut self, node_id: usize, value: T) -> (r: Option<T>)
        requires
            old(self).wf(),
        ensures
            final(self).wf(),
            old(self).ids().contains(node_id) ==> ({
                let k = old(self).ids().index_of(node_id);
                r == Some(old(self)@[k].1) && final(self)@ == old(self)@.update(k, (node_id, value))
            }),
            !old(self).ids().contains(node_id) ==> r is None && final(self)@ == old(self)@,
    {
        proof {
            if old(self).arena@.dom().contains(node_id) {
                let j = choose|j: int| 0 <= j < old(self).order@.len()
                    && old(self).order@[j] == node_id;
                assert(old(self).ids()[j] == node_id);
                let ks = old(self).ids().index_of(node_id);
                assert(old(self).order@[ks] == node_id);
            }
            if old(self).ids().contains(node_id) {
                let k = choose|k: int| 0 <= k < old(self).ids().len()
                    && old(self).ids()[k] == node_id;
                assert(old(self).order@[k] == node_id);
            }
        }
        if self.arena.contains(node_id) {
            let old_value = self.arena.swap_at(node_id, value);
            proof {
                let ks = old(self).ids().index_of(node_id);
                assert(self@ =~= old(self)@.update(ks, (node_id, value)));
            }
            Some(old_value)
        } else {
            None
        }
    }

    /// The front element together with its handle.
    pub fn front_entry(&self) -> (r: Option<(usize, &T)>)
        requires
            self.wf(),
        ensures
            self@.len() == 0 ==> r is None,
            self@.len() > 0 ==> (r matches Some((id, v)) && id == self@[0].0 && *v == self@[0].1),
    {
        if self.order.len() == 0 {
            None
        } else {
            let id = self.order[0];
            match self.arena.get(id) {
                Some(v) => Some((id, v)),
                None => None,
            }
        }
    }

    pub fn iter(&self) -> (r: SlabLinkedListIter<T>)
        requires
            self.wf(),
        ensures
            r.wf(),
            r.entries() == self@,
            r.lo() == 0,
            r.hi() == self@.len(),
    {
        SlabLinkedListIter { list: self, front_pos: 0, back_pos: self.order.len() }
    }
}

/// A cursor over a queue, yielding `(handle, &value)` pairs; it can be
/// advanced from the front with `next` and from the back with `next_back`,
/// and is exhausted when the two ends meet.
pub struct SlabLinkedListIter<'a, T> {
    list: &'a SlabLinkedList<T>,
    front_pos: usize,
    back_pos: usize,
}

impl<'a, T> SlabLinkedListIter<'a, T> {
    pub closed spec fn wf(&self) -> bool {
        &&& self.list.wf()
        &&& self.front_pos <= self.back_pos <= self.list@.len()
    }

    /// The full queue this cursor walks over.
    pub closed spec fn entries(&self) -> Seq<(usize, T)> {
        self.list@
    }

    /// The position of the next element yielded from the front.
    pub closed spec fn lo(&self) -> int {
        self.front_pos as int
    }

    /// One past the position of the next element yielded from the back.
    pub closed spec fn hi(&self) -> int {
        self.back_pos as int
    }

    /// The two cursor ends stay within the queue.
    pub proof fn lemma_bounds(&self)
        requires
            self.wf(),
        ensures
            0 <= self.lo() <= self.hi() <= self.entries().len(),
    {
    }

    pub fn next(&mut self) -> (r: Option<(usize, &'a T)>)
        requires
            old(self).wf(),
        ensures
            final(self).wf(),
            final(self).entries() == old(self).entries(),
            final(self).hi() == old(self).hi(),
            old(self).lo() == old(self).hi() ==> r is None && final(self).lo() == old(self).lo(),
            old(self).lo() < old(self).hi() ==> final(self).lo() == old(self).lo() + 1
                && (r matches Some((id, v)) && id == old(self).entries()[old(self).lo()].0
                    && *v == old(self).entries()[old(self).lo()].1),
    {
        if self.front_pos < self.back_pos {
            let id = self.list.order[self.front_pos];
            self.front_pos += 1;
            let v = self.list.arena.get(id);
            Some((id, v.unwrap()))
        } else {
            None
        }
    }

    pub fn next_back(&mut self) -> (r: Option<(usize, &'a T)>)
        requires
            old(self).wf(),
        ensures
            final(self).wf(),
            final(self).entries() == old(self).entries(),
            final(self).lo() == old(self).lo(),
            old(self).lo() == old(self).hi() ==> r is None && final(self).hi() == old(self).hi(),
            old(self).lo() < old(self).hi() ==> final(self).hi() == old(self).hi() - 1
                && (r matches Some((id, v)) && id == old(self).entries()[old(self).hi() - 1].0
                    && *v == old(self).entries()[old(self).hi() - 1].1),
    {
        if self.front_pos < self.back_pos {
            let id = self.list.order[self.back_pos - 1];
            self.back_pos -= 1;
            let v = self.list.arena.get(id);
            Some((id, v.unwrap()))
        } else {
            None
        }
    }
}

} // verus!
