//! One side's price ladder: an ordered collection of price levels, each
//! owning a time-ordered queue of resting orders plus aggregate statistics.
//!
//! Price nodes live in an arena and are found through a vector of
//! `(price, node handle)` pairs kept sorted by price, so the ladder can be
//! walked in either direction while orders are addressed by stable handles.
//! An order's composite handle ([`OrderKey`]) stays valid from insertion
//! until that order is removed.

use vstd::prelude::*;
use crate::arena::Arena;
use crate::linked_list::{SlabLinkedList, SlabLinkedListIter};
use crate::order::{Order, OrderView};

verus! {

/// The sum of the remaining quantities of a queue of orders.
pub open spec fn sum_quantities(s: Seq<OrderView>) -> int
    decreases s.len(),
{
    if s.len() == 0 {
        0
    } else {
        s[0].quantity + sum_quantities(s.subrange(1, s.len() as int))
    }
}

pub proof fn lemma_sum_nonneg(s: Seq<OrderView>)
    ensures
        sum_quantities(s) >= 0,
    decreases s.len(),
{
    if s.len() > 0 {
        lemma_sum_nonneg(s.subrange(1, s.len() as int));
    }
}

pub proof fn lemma_sum_push(s: Seq<OrderView>, o: OrderView)
    ensures
        sum_quantities(s.push(o)) == sum_quantities(s) + o.quantity,
    decreases s.len(),
{
    let t = s.push(o);
    assert(t.len() == s.len() + 1);
    if s.len() == 0 {
        assert(t[0] == o);
        assert(t.subrange(1, 1) =~= Seq::<OrderView>::empty());
        assert(sum_quantities(t) == o.quantity + sum_quantities(t.subrange(1, 1)));
    } else {
        assert(t[0] == s[0]);
        assert(t.subrange(1, t.len() as int) =~= s.subrange(1, s.len() as int).push(o));
        lemma_sum_push(s.subrange(1, s.len() as int), o);
        assert(sum_quantities(t) == t[0].quantity + sum_quantities(t.subrange(1, t.len() as int)));
    }
}

pub proof fn lemma_sum_remove(s: Seq<OrderView>, j: int)
    requires
        0 <= j < s.len(),
    ensures
        sum_quantities(s.remove(j)) == sum_quantities(s) - s[j].quantity,
    decreases s.len(),
{
    if j == 0 {
        assert(s.remove(0) =~= s.subrange(1, s.len() as int));
    } else {
        assert(s.remove(j).subrange(1, s.len() - 1) =~= s.subrange(1, s.len() as int).remove(
            j - 1));
        assert(s.remove(j)[0] == s[0]);
        lemma_sum_remove(s.subrange(1, s.len() as int), j - 1);
    }
}

pub proof fn lemma_sum_update(s: Seq<OrderView>, j: int, o: OrderView)
    requires
        0 <= j < s.len(),
    ensures
        sum_quantities(s.update(j, o)) == sum_quantities(s) - s[j].quantity + o.quantity,
    decreases s.len(),
{
    if j == 0 {
        assert(s.update(0, o).subrange(1, s.len() as int) =~= s.subrange(1, s.len() as int));
    } else {
        assert(s.update(j, o).subrange(1, s.len() as int) =~= s.subrange(1, s.len() as int).update(
            j - 1, o));
        assert(s.update(j, o)[0] == s[0]);
        lemma_sum_update(s.subrange(1, s.len() as int), j - 1, o);
    }
}

/// One price level as the contracts see it.
#[verifier::ext_equal]
pub struct LevelView {
    pub price: u32,
    pub orders: Seq<OrderView>,
}

/// Whether some level in the ladder carries this price.
pub open spec fn has_price(levels: Seq<LevelView>, price: u32) -> bool {
    exists|k: int| 0 <= k < levels.len() && levels[k].price == price
}

/// The index of the level carrying this price.
pub open spec fn index_of_price(levels: Seq<LevelView>, price: u32) -> int {
    choose|k: int| 0 <= k < levels.len() && levels[k].price == price
}

/// Where a new level of this price belongs in a ladder sorted by price.
pub open spec fn lower_bound(levels: Seq<LevelView>, price: u32) -> int
    decreases levels.len(),
{
    if levels.len() == 0 || levels[0].price >= price {
        0
    } else {
        1 + lower_bound(levels.subrange(1, levels.len() as int), price)
    }
}

/// Prices strictly increase along the ladder.
pub open spec fn sorted_levels(levels: Seq<LevelView>) -> bool {
    forall|k1: int, k2: int| 0 <= k1 < k2 < levels.len() ==> levels[k1].price < levels[k2].price
}

pub proof fn lemma_lower_bound(levels: Seq<LevelView>, price: u32)
    requires
        sorted_levels(levels),
    ensures
        0 <= lower_bound(levels, price) <= levels.len(),
        forall|j: int| 0 <= j < lower_bound(levels, price) ==> levels[j].price < price,
        lower_bound(levels, price) < levels.len() ==> levels[lower_bound(levels, price)].price
            >= price,
    decreases levels.len(),
{
    if levels.len() > 0 && levels[0].price < price {
        let rest = levels.subrange(1, levels.len() as int);
        lemma_lower_bound(rest, price);
        let lb = lower_bound(levels, price);
        assert(lb == 1 + lower_bound(rest, price));
        assert forall|j: int| 0 <= j < lb implies levels[j].price < price by {
            if j > 0 {
                assert(rest[j - 1] == levels[j]);
            }
        }
        if lb < levels.len() {
            assert(levels[lb] == rest[lb - 1]);
        }
    }
}

/// One price level: a queue of resting orders at a single price, oldest
/// first, with the running sum of their remaining quantities.
pub struct PriceNode {
    linked_list: SlabLinkedList<Order>,
    price: u32,
    total_quantity: u32,
}

impl PriceNode {
    /// The orders queued at this level, oldest first.
    pub closed spec fn orders(&self) -> Seq<OrderView> {
        self.linked_list.vals().map_values(|o: Order| o.ov())
    }

    pub closed spec fn spec_price(&self) -> u32 {
        self.price
    }

    /// The aggregate equals the sum over the queue and every queued order
    /// carries the level's price.
    pub closed spec fn wf(&self) -> bool {
        &&& self.linked_list.wf()
        &&& self.total_quantity == sum_quantities(self.orders())
        &&& forall|k: int|
            0 <= k < self.linked_list.vals().len() ==> (#[trigger] self.linked_list.vals()[k]).price
                == self.price
    }

    pub fn price(&self) -> (r: u32)
        ensures
            r == self.spec_price(),
    {
        self.price
    }

    pub fn total_quantity(&self) -> (r: u32)
        ensures
            self.wf() ==> r == sum_quantities(self.orders()),
    {
        self.total_quantity
    }

    pub fn num_orders(&self) -> (r: usize)
        ensures
            r == self.orders().len(),
    {
        self.linked_list.len()
    }

    pub fn iter(&self) -> (r: PriceNodeIterator)
        requires
            self.wf(),
        ensures
            r.wf(),
            r.orders() == self.orders(),
            r.node_price() == self.spec_price(),
            r.lo() == 0,
            r.hi() == self.orders().len(),
    {
        PriceNodeIterator { inner: self.linked_list.iter(), node: self }
    }
}

/// A cursor over one level's queue, oldest order first, yielding the queue
/// handle and a reference to each order.
pub struct PriceNodeIterator<'a> {
    inner: SlabLinkedListIter<'a, Order>,
    node: &'a PriceNode,
}

impl<'a> PriceNodeIterator<'a> {
    pub closed spec fn wf(&self) -> bool {
        &&& self.inner.wf()
        &&& self.node.wf()
        &&& self.inner.entries() == self.node.linked_list@
    }

    pub closed spec fn orders(&self) -> Seq<OrderView> {
        self.node.orders()
    }

    pub closed spec fn node_price(&self) -> u32 {
        self.node.spec_price()
    }

    pub closed spec fn lo(&self) -> int {
        self.inner.lo()
    }

    pub closed spec fn hi(&self) -> int {
        self.inner.hi()
    }

    pub fn next(&mut self) -> (r: Option<(usize, &'a Order)>)
        requires
            old(self).wf(),
        ensures
            final(self).wf(),
            final(self).orders() == old(self).orders(),
            final(self).node_price() == old(self).node_price(),
            final(self).hi() == old(self).hi(),
            old(self).lo() == old(self).hi() ==> r is None && final(self).lo() == old(self).lo(),
            old(self).lo() < old(self).hi() ==> final(self).lo() == old(self).lo() + 1
                && (r matches Some((id, o)) && o.ov() == old(self).orders()[old(self).lo()]
                    && o.price == old(self).node_price()),
    {
        proof {
            self.inner.lemma_bounds();
            assert(self.node.linked_list.vals().len() == self.node.linked_list@.len());
            if self.inner.lo() < self.inner.hi() {
                let k = self.inner.lo();
                assert(self.node.linked_list.vals()[k] == self.node.linked_list@[k].1);
                assert(self.node.orders()[k] == self.node.linked_list.vals()[k].ov());
            }
        }
        self.inner.next()
    }
}

/// A composite handle to a resting order: the level's node handle paired
/// with the order's queue handle.
#[derive(Clone, Copy, Debug, PartialEq, Eq, Structural)]
pub struct OrderKey {
    pub price_node_id: usize,
    pub linked_list_node_id: usize,
}

impl OrderKey {
    pub fn new(price_node_id: usize, linked_list_node_id: usize) -> (r: OrderKey)
        ensures
            r == (OrderKey { price_node_id, linked_list_node_id }),
    {
        OrderKey { price_node_id, linked_list_node_id }
    }
}

/// A failed handle lookup: the handle no longer refers to a live order.
#[derive(Clone, Copy, Debug, PartialEq, Eq, Structural)]
pub enum TreeError {
    NotFound,
}

/// One side's ladder.
pub struct PriceTree {
    arena: Arena<PriceNode>,
    tree: Vec<(u32, usize)>,
}

impl PriceTree {
    /// The ladder's levels in ascending price order.
    pub closed spec fn levels(&self) -> Seq<LevelView> {
        Seq::new(
            self.tree@.len(),
            |k: int| LevelView {
                price: self.tree@[k].0,
                orders: self.arena@[self.tree@[k].1].orders(),
            },
        )
    }

    pub closed spec fn wf(&self) -> bool {
        &&& self.arena.wf()
        &&& forall|k: int|
            0 <= k < self.tree@.len() ==> self.arena@.dom().contains(
                (#[trigger] self.tree@[k]).1)
        &&& forall|k: int|
            0 <= k < self.tree@.len() ==> (#[trigger] self.node_at(k)).wf()
                && self.node_at(k).spec_price() == self.tree@[k].0 && self.node_at(
                k).orders().len() > 0
        &&& forall|k1: int, k2: int|
            0 <= k1 < k2 < self.tree@.len() ==> self.tree@[k1].0 < self.tree@[k2].0
        &&& forall|id: usize|
            #[trigger] self.arena@.dom().contains(id) ==> exists|k: int|
                0 <= k < self.tree@.len() && self.tree@[k].1 == id
    }

    spec fn node_at(&self, k: int) -> PriceNode {
        self.arena@[self.tree@[k].1]
    }

    /// A handle is valid while the order it was returned for still rests.
    pub closed spec fn key_valid(&self, key: OrderKey) -> bool {
        exists|k: int|
            0 <= k < self.tree@.len() && (#[trigger] self.tree@[k]).1 == key.price_node_id
                && self.arena@[key.price_node_id].linked_list.ids().contains(
                key.linked_list_node_id)
    }

    /// The index of the level a valid handle points into.
    pub closed spec fn key_level(&self, key: OrderKey) -> int {
        choose|k: int| 0 <= k < self.tree@.len() && self.tree@[k].1 == key.price_node_id
    }

    /// The position within its level's queue of the order a valid handle
    /// points at.
    pub closed spec fn key_slot(&self, key: OrderKey) -> int {
        self.arena@[key.price_node_id].linked_list.ids().index_of(key.linked_list_node_id)
    }

    /// The order a valid handle points at.
    pub open spec fn order_at(&self, key: OrderKey) -> OrderView {
        self.levels()[self.key_level(key)].orders[self.key_slot(key)]
    }

    pub proof fn lemma_wf_levels(&self)
        requires
            self.wf(),
        ensures
            sorted_levels(self.levels()),
            forall|k: int|
                0 <= k < self.levels().len() ==> (#[trigger] self.levels()[k]).orders.len() > 0,
    {
        assert forall|k: int|
            0 <= k < self.levels().len() implies (#[trigger] self.levels()[k]).orders.len()
            > 0 by {
            assert(self.levels()[k].orders == self.node_at(k).orders());
        }
    }

    /// A valid handle points at a real position of the ladder's view.
    pub proof fn lemma_key_in_range(&self, key: OrderKey)
        requires
            self.wf(),
            self.key_valid(key),
        ensures
            0 <= self.key_level(key) < self.levels().len(),
            0 <= self.key_slot(key) < self.levels()[self.key_level(key)].orders.len(),
    {
        let k = self.key_level(key);
        let ids = self.arena@[key.price_node_id].linked_list.ids();
        assert(ids.contains(key.linked_list_node_id));
        let j = choose|j: int| 0 <= j < ids.len() && ids[j] == key.linked_list_node_id;
        assert(0 <= ids.index_of(key.linked_list_node_id) < ids.len());
        assert(self.node_at(k).orders().len() == ids.len());
    }

    /// Every level's aggregate quantity is held in a 32-bit counter, so
    /// the sum over its queue never exceeds `u32::MAX`.
    pub proof fn lemma_level_sums_bounded(&self)
        requires
            self.wf(),
        ensures
            forall|k: int|
                0 <= k < self.levels().len() ==> sum_quantities(
                    (#[trigger] self.levels()[k]).orders,
                ) <= u32::MAX,
    {
        assert forall|k: int| 0 <= k < self.levels().len() implies sum_quantities(
            (#[trigger] self.levels()[k]).orders,
        ) <= u32::MAX by {
            assert(self.node_at(k).wf());
            assert(self.levels()[k].orders == self.node_at(k).orders());
            assert(self.node_at(k).total_quantity == sum_quantities(self.node_at(k).orders()));
        }
    }

    /// Distinct levels hold distinct node handles.
    proof fn lemma_node_ids_distinct(&self)
        requires
            self.wf(),
        ensures
            forall|k1: int, k2: int|
                0 <= k1 < self.tree@.len() && 0 <= k2 < self.tree@.len() && k1 != k2
                    ==> (#[trigger] self.tree@[k1]).1 != (#[trigger] self.tree@[k2]).1,
    {
        assert forall|k1: int, k2: int|
            0 <= k1 < self.tree@.len() && 0 <= k2 < self.tree@.len() && k1 != k2
            implies (#[trigger] self.tree@[k1]).1 != (#[trigger] self.tree@[k2]).1 by {
            if self.tree@[k1].1 == self.tree@[k2].1 {
                assert(self.node_at(k1) == self.node_at(k2));
                assert(self.tree@[k1].0 == self.node_at(k1).spec_price());
                assert(self.tree@[k2].0 == self.node_at(k2).spec_price());
            }
        }
    }

    pub fn new() -> (r: PriceTree)
        ensures
            r.wf(),
            r.levels() == Seq::<LevelView>::empty(),
    {
        let r = PriceTree { arena: Arena::new(), tree: Vec::new() };
        proof {
            assert(r.levels() =~= Seq::<LevelView>::empty());
        }
        r
    }

    pub fn num_levels(&self) -> (r: usize)
        ensures
            r == self.levels().len(),
    {
        self.tree.len()
    }

    /// Appends the order to its price's level, creating the level if the
    /// price is new, and returns a handle that stays valid until the order
    /// is removed. Every handle that was valid before stays valid and still
    /// points at the same order.
    #[verifier::loop_isolation(false)]
    #[verifier::rlimit(100)]
    pub fn insert_order(&mut self, order: Order) -> (key: OrderKey)
        requires
            old(self).wf(),
            has_price(old(self).levels(), order.price) ==> sum_quantities(
                old(self).levels()[index_of_price(old(self).levels(), order.price)].orders)
                + order.quantity <= u32::MAX,
        ensures
            final(self).wf(),
            !old(self).key_valid(key),
            final(self).key_valid(key),
            final(self).order_at(key) == order.ov(),
            forall|k2: OrderKey|
                #[trigger] old(self).key_valid(k2) ==> final(self).key_valid(k2)
                    && final(self).order_at(k2) == old(self).order_at(k2),
            has_price(old(self).levels(), order.price) ==> final(self).levels() == old(
                self).levels().update(
                index_of_price(old(self).levels(), order.price),
                LevelView {
                    price: order.price,
                    orders: old(self).levels()[index_of_price(old(self).levels(), order.price)]
                        .orders.push(order.ov()),
                },
            ),
            !has_price(old(self).levels(), order.price) ==> final(self).levels() == old(
                self).levels().insert(
                lower_bound(old(self).levels(), order.price),
                LevelView { price: order.price, orders: seq![order.ov()] },
            ),
    {
        let ghost lvs = old(self).levels();
        let mut k: usize = 0;
        while k < self.tree.len() && self.tree[k].0 < order.price
            invariant
                k <= self.tree@.len(),
                forall|j: int| 0 <= j < k ==> self.tree@[j].0 < order.price,
            decreases self.tree@.len() - k,
        {
            k += 1;
        }
        proof {
            self.lemma_node_ids_distinct();
            assert(forall|j: int| 0 <= j < lvs.len() ==> (#[trigger] lvs[j]).price
                == self.tree@[j].0);
        }
        if k < self.tree.len() && self.tree[k].0 == order.price {
            // An existing level carries this price.
            proof {
                assert(has_price(lvs, order.price)) by {
                    assert(lvs[k as int].price == order.price);
                }
                let ki = index_of_price(lvs, order.price);
                assert(lvs[ki].price == order.price);
                assert(ki == k) by {
                    if ki < k {
                        assert(lvs[ki].price < order.price);
                    }
                    if ki > k {
                        assert(self.tree@[k as int].0 < self.tree@[ki].0);
                    }
                }
            }
            let node_id = self.tree[k].1;
            let dummy = PriceNode {
                linked_list: SlabLinkedList::new(),
                price: 0,
                total_quantity: 0,
            };
            let mut node = self.arena.swap_at(node_id, dummy);
            proof {
                assert(old(self).node_at(k as int).wf());
                assert(node == old(self).node_at(k as int));
                node.linked_list.lemma_ids_distinct();
            }
            let list_id = node.linked_list.push_back(order);
            proof {
                node.linked_list.lemma_ids_distinct();
                lemma_sum_push(old(self).node_at(k as int).orders(), order.ov());
                assert(node.linked_list.vals() =~= old(self).node_at(
                    k as int).linked_list.vals().push(order));
                assert(node.orders() =~= old(self).node_at(k as int).orders().push(order.ov()));
            }
            node.total_quantity = node.total_quantity + order.quantity;
            let ghost new_node = node;
            let _ = self.arena.swap_at(node_id, node);
            let key = OrderKey { price_node_id: node_id, linked_list_node_id: list_id };
            proof {
                let ki = k as int;
                assert(self.arena@ =~= old(self).arena@.insert(node_id, new_node));
                assert(self.tree@ == old(self).tree@);
                // Only the touched level changes in the view.
                assert forall|j: int| 0 <= j < self.tree@.len() && j != ki
                    implies self.node_at(j) == old(self).node_at(j)
                        && self.levels()[j] == lvs[j] by {
                    assert(self.tree@[j].1 != node_id);
                }
                assert(self.levels()[ki].orders =~= lvs[ki].orders.push(order.ov()));
                assert(self.levels() =~~= lvs.update(
                    ki,
                    LevelView { price: order.price, orders: lvs[ki].orders.push(order.ov()) },
                ));
                // Well-formedness of the new state.
                assert(new_node.wf());
                assert forall|j: int| 0 <= j < self.tree@.len() implies (#[trigger] self.node_at(
                    j)).wf() && self.node_at(j).spec_price() == self.tree@[j].0 && self.node_at(
                    j).orders().len() > 0 by {
                    if j == ki {
                        assert(self.tree@[ki].1 == node_id);
                        assert(self.node_at(j) == new_node);
                        assert(new_node.wf());
                        assert(new_node.orders().len() > 0);
                    } else {
                        assert(self.tree@[j].1 != node_id);
                        assert(self.node_at(j) == old(self).node_at(j));
                        assert(old(self).node_at(j).wf());
                        assert(old(self).node_at(j).orders().len() > 0);
                    }
                }
                assert(self.wf());
                // The new handle is valid and was not valid before.
                let ids0 = old(self).arena@[node_id].linked_list.ids();
                let ids1 = new_node.linked_list.ids();
                assert(ids1 =~= ids0.push(list_id));
                assert(ids1[ids0.len() as int] == list_id);
                assert(ids1.contains(list_id));
                assert(self.key_valid(key)) by {
                    assert(self.tree@[ki].1 == key.price_node_id);
                }
                assert(!old(self).key_valid(key)) by {
                    if old(self).key_valid(key) {
                        let j = choose|j: int|
                            0 <= j < old(self).tree@.len() && old(self).tree@[j].1
                                == key.price_node_id && old(self).arena@[key.price_node_id]
                                .linked_list.ids().contains(key.linked_list_node_id);
                        assert(ids0.contains(list_id));
                    }
                }
                // The new handle points at the appended order.
                assert(self.key_level(key) == ki) by {
                    let j = self.key_level(key);
                    assert(self.tree@[ki].1 == key.price_node_id);
                    assert(0 <= j < self.tree@.len() && self.tree@[j].1 == key.price_node_id);
                }
                assert(self.key_slot(key) == ids0.len()) by {
                    let j = self.key_slot(key);
                    assert(0 <= j < ids1.len() && ids1[j] == list_id);
                    if j < ids0.len() {
                        assert(ids0[j] == list_id);
                        assert(ids0.contains(list_id));
                    }
                }
                assert(self.order_at(key) == order.ov());
                // Old handles survive unchanged.
                assert forall|k2: OrderKey| #[trigger] old(self).key_valid(k2)
                    implies self.key_valid(k2) && self.order_at(k2) == old(self).order_at(
                    k2) by {
                    let j = choose|j: int|
                        0 <= j < old(self).tree@.len() && old(self).tree@[j].1
                            == k2.price_node_id;
                    assert(old(self).arena@[k2.price_node_id].linked_list.ids().contains(
                        k2.linked_list_node_id));
                    if k2.price_node_id != node_id {
                        assert(self.arena@[k2.price_node_id] == old(self).arena@[
                            k2.price_node_id]);
                        assert(self.key_valid(k2));
                        assert(self.key_level(k2) == old(self).key_level(k2)) by {
                            let j1 = self.key_level(k2);
                            let j0 = old(self).key_level(k2);
                            assert(self.tree@[j].1 == k2.price_node_id);
                        }
                        assert(self.levels()[self.key_level(k2)]
                            == lvs[old(self).key_level(k2)]);
                    } else {
                        let lid = k2.linked_list_node_id;
                        assert(ids0.contains(lid));
                        let p0 = choose|p: int| 0 <= p < ids0.len() && ids0[p] == lid;
                        assert(ids1[p0] == lid);
                        assert(ids1.contains(lid));
                        assert(self.key_valid(k2)) by {
                            assert(self.tree@[ki].1 == k2.price_node_id);
                        }
                        assert(lid != list_id);
                        assert(self.key_level(k2) == ki && old(self).key_level(k2) == ki) by {
                            let j1 = self.key_level(k2);
                            let j0 = old(self).key_level(k2);
                            assert(old(self).tree@[j].1 == k2.price_node_id);
                        }
                        assert(ids0.index_of(lid) == ids1.index_of(lid)) by {
                            let q0 = ids0.index_of(lid);
                            let q1 = ids1.index_of(lid);
                            assert(0 <= q0 < ids0.len() && ids0[q0] == lid);
                            assert(0 <= q1 < ids1.len() && ids1[q1] == lid);
                            assert(ids1[q0] == lid);
                            if q1 < ids0.len() {
                                assert(ids0[q1] == lid);
                            } else {
                                assert(ids1[q1] == list_id);
                            }
                        }
                        assert(self.order_at(k2) == old(self).order_at(k2));
                    }
                }
            }
            key
        } else {
            // No level carries this price yet: make one at the sorted slot.
            proof {
                assert(!has_price(lvs, order.price)) by {
                    if has_price(lvs, order.price) {
                        let j = choose|j: int| 0 <= j < lvs.len() && lvs[j].price == order.price;
                        if j < k {
                            assert(self.tree@[j].0 < order.price);
                        } else {
                            assert(k < self.tree@.len() ==> self.tree@[k as int].0
                                != order.price);
                            if j > k {
                                assert(self.tree@[k as int].0 < self.tree@[j].0);
                            }
                        }
                    }
                }
                lemma_lower_bound(lvs, order.price);
                assert(lower_bound(lvs, order.price) == k as int) by {
                    let lb = lower_bound(lvs, order.price);
                    if lb < k {
                        assert(lvs[lb].price < order.price);
                        assert(lb < lvs.len() ==> lvs[lb].price >= order.price);
                    }
                    if lb > k {
                        assert(lvs[k as int].price < order.price);
                        assert(self.tree@[k as int].0 >= order.price);
                    }
                }
            }
            let mut node = PriceNode {
                linked_list: SlabLinkedList::new(),
                price: order.price,
                total_quantity: order.quantity,
            };
            let list_id = node.linked_list.push_back(order);
            proof {
                assert(node.linked_list.vals() =~= seq![order]);
                assert(node.orders() =~= Seq::<OrderView>::empty().push(order.ov()));
                lemma_sum_push(Seq::<OrderView>::empty(), order.ov());
                assert(sum_quantities(node.orders()) == order.quantity);
                assert(node.wf());
            }
            let ghost new_node = node;
            let node_id = self.arena.insert(node);
            proof {
                assert(forall|j: int| 0 <= j < self.tree@.len() ==> (#[trigger] self.tree@[
                    j]).1 != node_id);
            }
            self.tree.insert(k, (order.price, node_id));
            let key = OrderKey { price_node_id: node_id, linked_list_node_id: list_id };
            proof {
                let ki = k as int;
                assert(self.arena@ == old(self).arena@.insert(node_id, new_node));
                assert(self.tree@ == old(self).tree@.insert(ki, (order.price, node_id)));
                assert forall|j: int| 0 <= j < self.tree@.len() && j != ki
                    implies self.tree@[j].1 != node_id && self.node_at(j) == (if j < ki {
                    old(self).node_at(j)
                } else {
                    old(self).node_at(j - 1)
                }) by {
                    if j < ki {
                        assert(self.tree@[j] == old(self).tree@[j]);
                    } else {
                        assert(self.tree@[j] == old(self).tree@[j - 1]);
                    }
                }
                assert(self.levels() =~~= lvs.insert(
                    ki,
                    LevelView { price: order.price, orders: seq![order.ov()] },
                ));
                // Well-formedness of the new state.
                assert forall|j: int| 0 <= j < self.tree@.len() implies (#[trigger] self.node_at(
                    j)).wf() && self.node_at(j).spec_price() == self.tree@[j].0 && self.node_at(
                    j).orders().len() > 0 by {}
                assert forall|j1: int, j2: int| 0 <= j1 < j2 < self.tree@.len()
                    implies self.tree@[j1].0 < self.tree@[j2].0 by {
                    if j2 < ki {
                    } else if j1 >= ki + 1 {
                        assert(old(self).tree@[j1 - 1].0 < old(self).tree@[j2 - 1].0);
                    } else if j1 < ki && j2 == ki {
                        assert(old(self).tree@[j1].0 < order.price);
                    } else if j1 < ki && j2 > ki {
                        assert(old(self).tree@[j1].0 < order.price);
                        assert(lvs[j2 - 1].price >= order.price);
                    } else if j1 == ki && j2 > ki {
                        assert(lvs[j2 - 1].price >= order.price);
                        assert(lvs[j2 - 1].price != order.price);
                    }
                }
                assert forall|id: usize| #[trigger] self.arena@.dom().contains(id)
                    implies exists|j: int| 0 <= j < self.tree@.len() && self.tree@[j].1
                    == id by {
                    if id == node_id {
                        assert(self.tree@[ki].1 == id);
                    } else {
                        let j0 = choose|j: int|
                            0 <= j < old(self).tree@.len() && old(self).tree@[j].1 == id;
                        if j0 < ki {
                            assert(self.tree@[j0].1 == id);
                        } else {
                            assert(self.tree@[j0 + 1].1 == id);
                        }
                    }
                }
                assert(self.wf());
                // The new handle is valid, fresh, and points at the order.
                let ids1 = new_node.linked_list.ids();
                assert(ids1 =~= seq![list_id]);
                assert(ids1[0] == list_id);
                assert(ids1.contains(list_id));
                assert(self.key_valid(key)) by {
                    assert(self.tree@[ki].1 == key.price_node_id);
                }
                assert(!old(self).key_valid(key)) by {
                    if old(self).key_valid(key) {
                        let j = choose|j: int|
                            0 <= j < old(self).tree@.len() && old(self).tree@[j].1
                                == key.price_node_id;
                        assert(old(self).arena@.dom().contains(old(self).tree@[j].1));
                    }
                }
                assert(self.key_level(key) == ki) by {
                    let j = self.key_level(key);
                    assert(self.tree@[ki].1 == key.price_node_id);
                    self.lemma_node_ids_distinct();
                }
                assert(self.key_slot(key) == 0) by {
                    let j = self.key_slot(key);
                    assert(0 <= j < ids1.len() && ids1[j] == list_id);
                }
                assert(self.order_at(key) == order.ov());
                // Old handles survive unchanged.
                assert forall|k2: OrderKey| #[trigger] old(self).key_valid(k2)
                    implies self.key_valid(k2) && self.order_at(k2) == old(self).order_at(
                    k2) by {
                    let j0 = old(self).key_level(k2);
                    assert(0 <= j0 < old(self).tree@.len() && old(self).tree@[j0].1
                        == k2.price_node_id) by {
                        let jw = choose|j: int|
                            0 <= j < old(self).tree@.len() && old(self).tree@[j].1
                                == k2.price_node_id;
                        old(self).lemma_node_ids_distinct();
                    }
                    assert(old(self).arena@.dom().contains(k2.price_node_id));
                    assert(k2.price_node_id != node_id);
                    assert(self.arena@[k2.price_node_id] == old(self).arena@[k2.price_node_id]);
                    let j1: int = if j0 < ki { j0 } else { j0 + 1 };
                    assert(self.tree@[j1].1 == k2.price_node_id);
                    assert(self.key_valid(k2));
                    assert(self.key_level(k2) == j1) by {
                        self.lemma_node_ids_distinct();
                        let jq = self.key_level(k2);
                        assert(self.tree@[j1].1 == k2.price_node_id);
                    }
                    assert(self.levels()[j1] == lvs[j0]);
                    assert(self.order_at(k2) == old(self).order_at(k2));
                }
            }
            key
        }
    }

    /// Finds the ladder slot holding this node handle; meaningful only for
    /// a handle that is live in the arena.
    #[verifier::loop_isolation(false)]
    fn find_level(&self, node_id: usize) -> (kf: usize)
        requires
            self.wf(),
            exists|j: int| 0 <= j < self.tree@.len() && (#[trigger] self.tree@[j]).1 == node_id,
        ensures
            kf < self.tree@.len(),
            self.tree@[kf as int].1 == node_id,
    {
        let mut kf: usize = 0;
        while kf < self.tree.len() && self.tree[kf].1 != node_id
            invariant
                kf <= self.tree@.len(),
                forall|j: int| 0 <= j < kf ==> (#[trigger] self.tree@[j]).1 != node_id,
            decreases self.tree@.len() - kf,
        {
            kf += 1;
        }
        proof {
            let j = choose|j: int|
                0 <= j < self.tree@.len() && (#[trigger] self.tree@[j]).1 == node_id;
            assert(kf < self.tree@.len());
        }
        kf
    }

    /// Removes the order behind a handle; the level itself is destroyed the
    /// moment its queue empties, so no empty level is ever observable. A
    /// dead handle is answered with `NotFound` and nothing changes. Every
    /// other handle stays valid and still points at the same order.
    #[verifier::rlimit(100)]
    pub fn remove_order(&mut self, key: &OrderKey) -> (r: Result<(), TreeError>)
        requires
            old(self).wf(),
        ensures
            final(self).wf(),
            !old(self).key_valid(*key) ==> r == Err::<(), TreeError>(TreeError::NotFound)
                && final(self).levels() == old(self).levels() && (forall|k2: OrderKey|
                final(self).key_valid(k2) == old(self).key_valid(k2)),
            old(self).key_valid(*key) ==> r == Ok::<(), TreeError>(()) && !final(self).key_valid(
                *key) && ({
                let lk = old(self).key_level(*key);
                let lj = old(self).key_slot(*key);
                &&& 0 <= lk < old(self).levels().len()
                &&& 0 <= lj < old(self).levels()[lk].orders.len()
                &&& old(self).order_at(*key) == old(self).levels()[lk].orders[lj]
                &&& final(self).levels() == (if old(self).levels()[lk].orders.len() == 1 {
                    old(self).levels().remove(lk)
                } else {
                    old(self).levels().update(
                        lk,
                        LevelView {
                            price: old(self).levels()[lk].price,
                            orders: old(self).levels()[lk].orders.remove(lj),
                        },
                    )
                })
            }),
            forall|k2: OrderKey|
                #[trigger] old(self).key_valid(k2) && k2 != *key ==> final(self).key_valid(k2)
                    && final(self).order_at(k2) == old(self).order_at(k2),
            forall|k2: OrderKey|
                #[trigger] final(self).key_valid(k2) ==> old(self).key_valid(k2),
    {
        if !self.arena.contains(key.price_node_id) {
            proof {
                assert(!old(self).key_valid(*key)) by {
                    if old(self).key_valid(*key) {
                        let j = choose|j: int|
                            0 <= j < old(self).tree@.len() && (#[trigger] old(self).tree@[j]).1
                                == key.price_node_id;
                        assert(old(self).arena@.dom().contains(key.price_node_id));
                    }
                }
            }
            return Err(TreeError::NotFound);
        }
        let node_id = key.price_node_id;
        proof {
            old(self).lemma_node_ids_distinct();
        }
        let kf = self.find_level(node_id);
        let ghost lk = kf as int;
        let ghost lvs = old(self).levels();
        let dummy = PriceNode { linked_list: SlabLinkedList::new(), price: 0, total_quantity: 0 };
        let mut node = self.arena.swap_at(node_id, dummy);
        proof {
            assert(old(self).node_at(lk).wf());
            assert(node == old(self).node_at(lk));
            node.linked_list.lemma_ids_distinct();
        }
        let ghost ids0 = node.linked_list.ids();
        let ghost orders0 = node.orders();
        match node.linked_list.remove(key.linked_list_node_id) {
            None => {
                let ghost node1 = node;
                let _ = self.arena.swap_at(node_id, node);
                proof {
                    assert(self.arena@ =~= old(self).arena@.insert(node_id, node1));
                    assert(self.tree@ == old(self).tree@);
                    // The queue's view, and so the level, is untouched.
                    assert(node1.linked_list@ == old(self).node_at(lk).linked_list@);
                    assert(node1.orders() =~= orders0);
                    assert(node1.linked_list.ids() =~= ids0);
                    assert(node1.price == old(self).node_at(lk).price);
                    assert(node1.total_quantity == old(self).node_at(lk).total_quantity);
                    assert(node1.wf());
                    assert forall|j: int| 0 <= j < self.tree@.len() && j != lk
                        implies self.node_at(j) == old(self).node_at(j) by {
                        assert(self.tree@[j].1 != node_id);
                    }
                    assert(self.levels() =~~= lvs);
                    assert(!old(self).key_valid(*key)) by {
                        if old(self).key_valid(*key) {
                            assert(ids0.contains(key.linked_list_node_id));
                        }
                    }
                    assert forall|k2: OrderKey|
                        self.key_valid(k2) == old(self).key_valid(k2) by {
                        if k2.price_node_id == node_id {
                            assert(self.arena@[k2.price_node_id].linked_list.ids() == ids0);
                        } else {
                            assert(self.arena@[k2.price_node_id] == old(self).arena@[
                                k2.price_node_id]);
                        }
                    }
                    assert forall|k2: OrderKey| #[trigger] old(self).key_valid(k2) && k2 != *key
                        implies self.key_valid(k2) && self.order_at(k2) == old(self).order_at(
                        k2) by {
                        if k2.price_node_id == node_id {
                            assert(self.arena@[k2.price_node_id].linked_list.ids() == ids0);
                        } else {
                            assert(self.arena@[k2.price_node_id] == old(self).arena@[
                                k2.price_node_id]);
                        }
                        let j0 = old(self).key_level(k2);
                        let j1 = self.key_level(k2);
                        assert(j0 == j1);
                        assert(self.levels()[j1] == lvs[j0]);
                    }
                    assert(self.wf()) by {
                        assert forall|j: int| 0 <= j < self.tree@.len()
                            implies (#[trigger] self.node_at(j)).wf() && self.node_at(
                            j).spec_price() == self.tree@[j].0 && self.node_at(j).orders().len()
                            > 0 by {
                            if j == lk {
                                assert(self.node_at(j) == node1);
                            } else {
                                assert(self.node_at(j) == old(self).node_at(j));
                                assert(old(self).node_at(j).wf());
                            }
                        }
                    }
                }
                Err(TreeError::NotFound)
            }
            Some(order) => {
                proof {
                    // The handle was valid, and the removed order sits at
                    // the position the contract names.
                    assert(ids0.contains(key.linked_list_node_id));
                    assert(old(self).key_valid(*key)) by {
                        assert(old(self).tree@[lk].1 == key.price_node_id);
                    }
                    assert(old(self).key_level(*key) == lk) by {
                        let j = old(self).key_level(*key);
                        assert(old(self).tree@[lk].1 == key.price_node_id);
                    }
                    let lj = ids0.index_of(key.linked_list_node_id);
                    assert(0 <= lj < ids0.len() && ids0[lj] == key.linked_list_node_id);
                    assert(orders0 == lvs[lk].orders);
                    assert(order == old(self).node_at(lk).linked_list@[lj].1);
                    assert(old(self).node_at(lk).linked_list.vals()[lj] == order);
                    assert(orders0[lj] == order.ov());
                    assert(node.linked_list@ =~= old(self).node_at(lk).linked_list@.remove(lj));
                    assert(node.orders() =~= orders0.remove(lj));
                    lemma_sum_remove(orders0, lj);
                    lemma_sum_nonneg(orders0.remove(lj));
                    assert(order.quantity <= old(self).node_at(lk).total_quantity);
                }
                let ghost lj = ids0.index_of(key.linked_list_node_id);
                if node.linked_list.is_empty() {
                    self.tree.remove(kf);
                    let _ = self.arena.remove(node_id);
                    proof {
                        assert(orders0.len() == 1);
                        assert(self.arena@ =~= old(self).arena@.remove(node_id));
                        assert(self.tree@ == old(self).tree@.remove(lk));
                        assert forall|j: int| 0 <= j < self.tree@.len()
                            implies (#[trigger] self.tree@[j]).1 != node_id && self.node_at(j)
                                == (if j < lk {
                                old(self).node_at(j)
                            } else {
                                old(self).node_at(j + 1)
                            }) by {
                            if j < lk {
                                assert(self.tree@[j] == old(self).tree@[j]);
                            } else {
                                assert(self.tree@[j] == old(self).tree@[j + 1]);
                            }
                        }
                        assert(self.levels() =~~= lvs.remove(lk));
                        assert(self.wf()) by {
                            assert forall|j: int| 0 <= j < self.tree@.len()
                                implies (#[trigger] self.node_at(j)).wf() && self.node_at(
                                j).spec_price() == self.tree@[j].0 && self.node_at(
                                j).orders().len() > 0 by {}
                            assert forall|id: usize| #[trigger] self.arena@.dom().contains(id)
                                implies exists|j: int|
                                0 <= j < self.tree@.len() && self.tree@[j].1 == id by {
                                let j0 = choose|j: int|
                                    0 <= j < old(self).tree@.len() && old(self).tree@[j].1 == id;
                                if j0 < lk {
                                    assert(self.tree@[j0].1 == id);
                                } else {
                                    assert(self.tree@[j0 - 1].1 == id);
                                }
                            }
                        }
                        assert(!self.key_valid(*key)) by {
                            if self.key_valid(*key) {
                                let j = choose|j: int|
                                    0 <= j < self.tree@.len() && (#[trigger] self.tree@[j]).1
                                        == key.price_node_id;
                            }
                        }
                        assert forall|k2: OrderKey| #[trigger] old(self).key_valid(k2) && k2
                            != *key implies self.key_valid(k2) && self.order_at(k2) == old(
                            self).order_at(k2) by {
                            let j0 = old(self).key_level(k2);
                            assert(0 <= j0 < old(self).tree@.len() && old(self).tree@[j0].1
                                == k2.price_node_id) by {
                                let jw = choose|j: int|
                                    0 <= j < old(self).tree@.len() && (#[trigger] old(
                                    self).tree@[j]).1 == k2.price_node_id;
                            }
                            if k2.price_node_id == node_id {
                                // The emptied level held exactly one order,
                                // so any other handle into it equals `key`.
                                assert(ids0.len() == 1);
                                assert(ids0.contains(k2.linked_list_node_id));
                                let p = choose|p: int|
                                    0 <= p < ids0.len() && ids0[p] == k2.linked_list_node_id;
                                assert(p == 0 && lj == 0);
                                assert(k2.linked_list_node_id == key.linked_list_node_id);
                                assert(false);
                            } else {
                                assert(j0 != lk);
                                let j1: int = if j0 < lk { j0 } else { j0 - 1 };
                                assert(self.tree@[j1].1 == k2.price_node_id);
                                assert(self.node_at(j1) == old(self).node_at(j0));
                                assert(self.key_valid(k2));
                                assert(self.key_level(k2) == j1) by {
                                    self.lemma_node_ids_distinct();
                                    let jq = self.key_level(k2);
                                    assert(self.tree@[j1].1 == k2.price_node_id);
                                }
                                assert(self.levels()[j1] == lvs[j0]);
                            }
                        }
                        assert forall|k2: OrderKey| #[trigger] self.key_valid(k2)
                            implies old(self).key_valid(k2) by {
                            let j1 = choose|j: int|
                                0 <= j < self.tree@.len() && (#[trigger] self.tree@[j]).1
                                    == k2.price_node_id;
                            let j0: int = if j1 < lk {
                                j1
                            } else {
                                j1 + 1
                            };
                            assert(old(self).tree@[j0].1 == k2.price_node_id);
                            assert(self.node_at(j1) == old(self).node_at(j0));
                        }
                    }
                    Ok(())
                } else {
                    proof {
                        assert(orders0.len() > 1);
                    }
                    node.total_quantity = node.total_quantity - order.quantity();
                    let ghost node1 = node;
                    let _ = self.arena.swap_at(node_id, node);
                    proof {
                        node1.linked_list.lemma_ids_distinct();
                        assert(node1.wf()) by {
                            assert(node1.total_quantity == sum_quantities(orders0.remove(lj)));
                            assert forall|k2: int| 0 <= k2 < node1.linked_list.vals().len()
                                implies (#[trigger] node1.linked_list.vals()[k2]).price
                                    == node1.price by {
                                let v0 = old(self).node_at(lk).linked_list.vals();
                                if k2 < lj {
                                    assert(node1.linked_list.vals()[k2] == v0[k2]);
                                } else {
                                    assert(node1.linked_list.vals()[k2] == v0[k2 + 1]);
                                }
                            }
                        }
                        assert(self.arena@ =~= old(self).arena@.insert(node_id, node1));
                        assert(self.tree@ == old(self).tree@);
                        assert forall|j: int| 0 <= j < self.tree@.len() && j != lk
                            implies self.node_at(j) == old(self).node_at(j)
                                && self.levels()[j] == lvs[j] by {
                            assert(self.tree@[j].1 != node_id);
                        }
                        assert(self.levels()[lk].orders == orders0.remove(lj));
                        assert(self.levels() =~~= lvs.update(
                            lk,
                            LevelView { price: lvs[lk].price, orders: lvs[lk].orders.remove(lj) },
                        ));
                        assert(self.wf()) by {
                            assert forall|j: int| 0 <= j < self.tree@.len()
                                implies (#[trigger] self.node_at(j)).wf() && self.node_at(
                                j).spec_price() == self.tree@[j].0 && self.node_at(
                                j).orders().len() > 0 by {
                                if j == lk {
                                    assert(self.node_at(j) == node1);
                                } else {
                                    assert(self.node_at(j) == old(self).node_at(j));
                                    assert(old(self).node_at(j).wf());
                                }
                            }
                        }
                        let ids1 = node1.linked_list.ids();
                        assert(ids1 =~= ids0.remove(lj));
                        assert(!self.key_valid(*key)) by {
                            if self.key_valid(*key) {
                                assert(ids1.contains(key.linked_list_node_id));
                                let p = choose|p: int|
                                    0 <= p < ids1.len() && ids1[p] == key.linked_list_node_id;
                                if p < lj {
                                    assert(ids0[p] == key.linked_list_node_id);
                                    assert(ids0[lj] == key.linked_list_node_id);
                                } else {
                                    assert(ids0[p + 1] == key.linked_list_node_id);
                                    assert(ids0[lj] == key.linked_list_node_id);
                                }
                            }
                        }
                        assert forall|k2: OrderKey| #[trigger] old(self).key_valid(k2) && k2
                            != *key implies self.key_valid(k2) && self.order_at(k2) == old(
                            self).order_at(k2) by {
                            let j0 = old(self).key_level(k2);
                            assert(0 <= j0 < old(self).tree@.len() && old(self).tree@[j0].1
                                == k2.price_node_id) by {
                                let jw = choose|j: int|
                                    0 <= j < old(self).tree@.len() && (#[trigger] old(
                                    self).tree@[j]).1 == k2.price_node_id;
                            }
                            if k2.price_node_id == node_id {
                                let lid = k2.linked_list_node_id;
                                assert(ids0.contains(lid));
                                let p0 = choose|p: int|
                                    0 <= p < ids0.len() && ids0[p] == lid;
                                assert(j0 == lk);
                                assert(lid != key.linked_list_node_id);
                                assert(p0 != lj);
                                let p1: int = if p0 < lj { p0 } else { p0 - 1 };
                                assert(ids1[p1] == lid);
                                assert(ids1.contains(lid));
                                assert(self.key_valid(k2)) by {
                                    assert(self.tree@[lk].1 == k2.price_node_id);
                                }
                                assert(self.key_level(k2) == lk && old(self).key_level(k2)
                                    == lk) by {
                                    let jq = self.key_level(k2);
                                    assert(self.tree@[lk].1 == k2.price_node_id);
                                }
                                assert(ids1.index_of(lid) == p1) by {
                                    let q1 = ids1.index_of(lid);
                                    assert(0 <= q1 < ids1.len() && ids1[q1] == lid);
                                    if q1 != p1 {
                                        let a1: int = if q1 < lj { q1 } else { q1 + 1 };
                                        assert(ids0[a1] == lid);
                                        let a0: int = if p1 < lj { p1 } else { p1 + 1 };
                                        assert(ids0[a0] == lid);
                                        assert(a1 != a0);
                                    }
                                }
                                assert(ids0.index_of(lid) == p0) by {
                                    let q0 = ids0.index_of(lid);
                                    assert(0 <= q0 < ids0.len() && ids0[q0] == lid);
                                }
                                assert(self.levels()[lk].orders[p1] == orders0[p0]);
                                assert(self.order_at(k2) == old(self).order_at(k2));
                            } else {
                                assert(j0 != lk);
                                assert(self.arena@[k2.price_node_id] == old(self).arena@[
                                    k2.price_node_id]);
                                assert(self.key_valid(k2)) by {
                                    assert(self.tree@[j0].1 == k2.price_node_id);
                                }
                                assert(self.key_level(k2) == j0) by {
                                    let jq = self.key_level(k2);
                                    assert(self.tree@[j0].1 == k2.price_node_id);
                                }
                                assert(self.levels()[j0] == lvs[j0]);
                                assert(self.order_at(k2) == old(self).order_at(k2));
                            }
                        }
                        assert forall|k2: OrderKey| #[trigger] self.key_valid(k2)
                            implies old(self).key_valid(k2) by {
                            let j1 = choose|j: int|
                                0 <= j < self.tree@.len() && (#[trigger] self.tree@[j]).1
                                    == k2.price_node_id;
                            assert(old(self).tree@[j1].1 == k2.price_node_id);
                            if k2.price_node_id == node_id {
                                let ids1 = node1.linked_list.ids();
                                assert(ids1.contains(k2.linked_list_node_id));
                                let p = choose|p: int|
                                    0 <= p < ids1.len() && ids1[p] == k2.linked_list_node_id;
                                let a: int = if p < lj {
                                    p
                                } else {
                                    p + 1
                                };
                                assert(ids0[a] == k2.linked_list_node_id);
                                assert(ids0.contains(k2.linked_list_node_id));
                            } else {
                                assert(self.arena@[k2.price_node_id] == old(self).arena@[
                                    k2.price_node_id]);
                            }
                        }
                    }
                    Ok(())
                }
            }
        }
    }

    /// Lowers the remaining quantity of the order behind a handle (a partial
    /// fill never raises it) and adjusts the level's aggregate by the same
    /// delta. A dead handle is answered with `NotFound` and nothing changes.
    #[verifier::rlimit(100)]
    pub fn update_order_quantity(&mut self, key: &OrderKey, quantity: u32) -> (r: Result<
        (),
        TreeError,
    >)
        requires
            old(self).wf(),
            old(self).key_valid(*key) ==> 0 < quantity < old(self).order_at(*key).quantity,
        ensures
            final(self).wf(),
            !old(self).key_valid(*key) ==> r == Err::<(), TreeError>(TreeError::NotFound)
                && final(self).levels() == old(self).levels() && (forall|k2: OrderKey|
                final(self).key_valid(k2) == old(self).key_valid(k2)),
            old(self).key_valid(*key) ==> r == Ok::<(), TreeError>(()) && ({
                let lk = old(self).key_level(*key);
                let lj = old(self).key_slot(*key);
                &&& 0 <= lk < old(self).levels().len()
                &&& 0 <= lj < old(self).levels()[lk].orders.len()
                &&& old(self).order_at(*key) == old(self).levels()[lk].orders[lj]
                &&& final(self).levels() == old(self).levels().update(
                    lk,
                    LevelView {
                        price: old(self).levels()[lk].price,
                        orders: old(self).levels()[lk].orders.update(
                            lj,
                            OrderView { id: old(self).order_at(*key).id, quantity },
                        ),
                    },
                )
            }),
            forall|k2: OrderKey|
                #[trigger] old(self).key_valid(k2) ==> final(self).key_valid(k2) && (k2 != *key
                    ==> final(self).order_at(k2) == old(self).order_at(k2)),
            forall|k2: OrderKey|
                #[trigger] final(self).key_valid(k2) ==> old(self).key_valid(k2),
            old(self).key_valid(*key) ==> final(self).order_at(*key) == (OrderView {
                id: old(self).order_at(*key).id,
                quantity,
            }),
    {
        if !self.arena.contains(key.price_node_id) {
            proof {
                assert(!old(self).key_valid(*key)) by {
                    if old(self).key_valid(*key) {
                        let j = choose|j: int|
                            0 <= j < old(self).tree@.len() && (#[trigger] old(self).tree@[j]).1
                                == key.price_node_id;
                        assert(old(self).arena@.dom().contains(key.price_node_id));
                    }
                }
            }
            return Err(TreeError::NotFound);
        }
        let node_id = key.price_node_id;
        proof {
            old(self).lemma_node_ids_distinct();
        }
        let kf = self.find_level(node_id);
        let ghost lk = kf as int;
        let ghost lvs = old(self).levels();
        let dummy = PriceNode { linked_list: SlabLinkedList::new(), price: 0, total_quantity: 0 };
        let mut node = self.arena.swap_at(node_id, dummy);
        proof {
            assert(old(self).node_at(lk).wf());
            assert(node == old(self).node_at(lk));
            node.linked_list.lemma_ids_distinct();
        }
        let ghost ids0 = node.linked_list.ids();
        let ghost orders0 = node.orders();
        let cur: Order = match node.linked_list.get(key.linked_list_node_id) {
            Some(o) => *o,
            None => {
                let ghost node1 = node;
                let _ = self.arena.swap_at(node_id, node);
                proof {
                    assert(self.arena@ =~= old(self).arena@.insert(node_id, node1));
                    assert(node1 == old(self).node_at(lk));
                    assert(self.arena@ =~= old(self).arena@);
                    assert(self.levels() =~~= lvs);
                    assert(!old(self).key_valid(*key)) by {
                        if old(self).key_valid(*key) {
                            assert(ids0.contains(key.linked_list_node_id));
                        }
                    }
                    assert(self.wf()) by {
                        assert forall|j: int| 0 <= j < self.tree@.len()
                            implies (#[trigger] self.node_at(j)).wf() && self.node_at(
                            j).spec_price() == self.tree@[j].0 && self.node_at(j).orders().len()
                            > 0 by {
                            assert(self.node_at(j) == old(self).node_at(j));
                            assert(old(self).node_at(j).wf());
                        }
                    }
                }
                return Err(TreeError::NotFound);
            }
        };
        proof {
            assert(ids0.contains(key.linked_list_node_id));
            assert(old(self).key_valid(*key)) by {
                assert(old(self).tree@[lk].1 == key.price_node_id);
            }
            assert(old(self).key_level(*key) == lk) by {
                let j = old(self).key_level(*key);
                assert(old(self).tree@[lk].1 == key.price_node_id);
            }
            let lj = ids0.index_of(key.linked_list_node_id);
            assert(0 <= lj < ids0.len() && ids0[lj] == key.linked_list_node_id);
            assert(orders0 == lvs[lk].orders);
            assert(old(self).node_at(lk).linked_list.vals()[lj] == cur);
            assert(orders0[lj] == cur.ov());
            assert(old(self).order_at(*key) == cur.ov());
            lemma_sum_remove(orders0, lj);
            lemma_sum_nonneg(orders0.remove(lj));
            assert(cur.quantity <= old(self).node_at(lk).total_quantity);
        }
        let ghost lj = ids0.index_of(key.linked_list_node_id);
        let updated = Order { quantity, ..cur };
        let _ = node.linked_list.replace(key.linked_list_node_id, updated);
        node.total_quantity = node.total_quantity - (cur.quantity - quantity);
        let ghost node1 = node;
        let _ = self.arena.swap_at(node_id, node);
        proof {
            node1.linked_list.lemma_ids_distinct();
            assert(node1.linked_list@ =~= old(self).node_at(lk).linked_list@.update(
                lj,
                (key.linked_list_node_id, updated),
            ));
            assert(node1.linked_list.ids() =~= ids0);
            assert(node1.orders() =~= orders0.update(lj, updated.ov()));
            lemma_sum_update(orders0, lj, updated.ov());
            assert(node1.wf()) by {
                assert forall|k2: int| 0 <= k2 < node1.linked_list.vals().len()
                    implies (#[trigger] node1.linked_list.vals()[k2]).price == node1.price by {
                    let v0 = old(self).node_at(lk).linked_list.vals();
                    if k2 != lj {
                        assert(node1.linked_list.vals()[k2] == v0[k2]);
                    } else {
                        assert(node1.linked_list.vals()[k2] == updated);
                        assert(v0[lj].price == node1.price);
                    }
                }
            }
            assert(self.arena@ =~= old(self).arena@.insert(node_id, node1));
            assert(self.tree@ == old(self).tree@);
            assert forall|j: int| 0 <= j < self.tree@.len() && j != lk
                implies self.node_at(j) == old(self).node_at(j) && self.levels()[j]
                    == lvs[j] by {
                assert(self.tree@[j].1 != node_id);
            }
            assert(self.levels()[lk].orders == orders0.update(lj, updated.ov()));
            assert(updated.ov() == (OrderView { id: cur.ov().id, quantity }));
            assert(self.levels() =~~= lvs.update(
                lk,
                LevelView {
                    price: lvs[lk].price,
                    orders: lvs[lk].orders.update(lj, OrderView { id: cur.ov().id, quantity }),
                },
            ));
            assert(self.wf()) by {
                assert forall|j: int| 0 <= j < self.tree@.len() implies (#[trigger] self.node_at(
                    j)).wf() && self.node_at(j).spec_price() == self.tree@[j].0 && self.node_at(
                    j).orders().len() > 0 by {
                    if j == lk {
                        assert(self.node_at(j) == node1);
                    } else {
                        assert(self.node_at(j) == old(self).node_at(j));
                        assert(old(self).node_at(j).wf());
                    }
                }
            }
            assert forall|k2: OrderKey| #[trigger] old(self).key_valid(k2)
                implies self.key_valid(k2) && (k2 != *key ==> self.order_at(k2) == old(
                self).order_at(k2)) by {
                let j0 = old(self).key_level(k2);
                assert(0 <= j0 < old(self).tree@.len() && old(self).tree@[j0].1
                    == k2.price_node_id) by {
                    let jw = choose|j: int|
                        0 <= j < old(self).tree@.len() && (#[trigger] old(self).tree@[j]).1
                            == k2.price_node_id;
                }
                if k2.price_node_id == node_id {
                    assert(self.arena@[k2.price_node_id].linked_list.ids() == ids0);
                    assert(self.key_valid(k2)) by {
                        assert(self.tree@[lk].1 == k2.price_node_id);
                    }
                    if k2 != *key {
                        let p = ids0.index_of(k2.linked_list_node_id);
                        assert(ids0.contains(k2.linked_list_node_id));
                        assert(0 <= p < ids0.len() && ids0[p] == k2.linked_list_node_id);
                        assert(k2.linked_list_node_id != key.linked_list_node_id);
                        assert(p != lj);
                        assert(j0 == lk);
                        assert(self.key_level(k2) == lk) by {
                            let jq = self.key_level(k2);
                            assert(self.tree@[lk].1 == k2.price_node_id);
                        }
                        assert(self.levels()[lk].orders[p] == orders0[p]);
                        assert(self.order_at(k2) == old(self).order_at(k2));
                    }
                } else {
                    assert(self.arena@[k2.price_node_id] == old(self).arena@[k2.price_node_id]);
                    assert(self.key_valid(k2)) by {
                        assert(self.tree@[j0].1 == k2.price_node_id);
                    }
                    assert(j0 != lk);
                    assert(self.key_level(k2) == j0) by {
                        let jq = self.key_level(k2);
                        assert(self.tree@[j0].1 == k2.price_node_id);
                    }
                    assert(self.levels()[j0] == lvs[j0]);
                    assert(self.order_at(k2) == old(self).order_at(k2));
                }
            }
            assert(self.key_level(*key) == lk) by {
                let jq = self.key_level(*key);
                assert(self.tree@[lk].1 == key.price_node_id);
            }
            assert(self.key_slot(*key) == lj);
            assert(self.order_at(*key) == (OrderView { id: cur.ov().id, quantity }));
            assert forall|k2: OrderKey| #[trigger] self.key_valid(k2) implies old(
                self).key_valid(k2) by {
                let j1 = choose|j: int|
                    0 <= j < self.tree@.len() && (#[trigger] self.tree@[j]).1
                        == k2.price_node_id;
                assert(old(self).tree@[j1].1 == k2.price_node_id);
                if k2.price_node_id == node_id {
                    assert(self.arena@[k2.price_node_id].linked_list.ids() == ids0);
                } else {
                    assert(self.arena@[k2.price_node_id] == old(self).arena@[k2.price_node_id]);
                }
            }
        }
        Ok(())
    }

    /// Reads the order behind a handle; a dead handle yields `None`.
    pub fn get_order(&self, key: &OrderKey) -> (r: Option<&Order>)
        requires
            self.wf(),
        ensures
            self.key_valid(*key) ==> (r matches Some(o) && o.ov() == self.order_at(*key)
                && o.price == self.levels()[self.key_level(*key)].price),
            !self.key_valid(*key) ==> r is None,
    {
        proof {
            self.lemma_node_ids_distinct();
        }
        match self.arena.get(key.price_node_id) {
            None => {
                proof {
                    assert(!self.key_valid(*key)) by {
                        if self.key_valid(*key) {
                            let j = choose|j: int|
                                0 <= j < self.tree@.len() && (#[trigger] self.tree@[j]).1
                                    == key.price_node_id;
                            assert(self.arena@.dom().contains(key.price_node_id));
                        }
                    }
                }
                None
            }
            Some(node) => {
                proof {
                    let j = choose|j: int|
                        0 <= j < self.tree@.len() && (#[trigger] self.tree@[j]).1
                            == key.price_node_id;
                    assert(self.node_at(j).wf());
                    assert(*node == self.node_at(j));
                    node.linked_list.lemma_ids_distinct();
                    if self.key_valid(*key) {
                        assert(self.key_level(*key) == j) by {
                            let jq = self.key_level(*key);
                            assert(self.tree@[j].1 == key.price_node_id);
                        }
                        let ids = node.linked_list.ids();
                        let p = ids.index_of(key.linked_list_node_id);
                        assert(ids.contains(key.linked_list_node_id));
                        assert(0 <= p < ids.len() && ids[p] == key.linked_list_node_id);
                        assert(node.linked_list@[p].1.ov() == self.levels()[j].orders[p]);
                        assert(node.linked_list.vals()[p].price == node.price);
                    } else {
                        assert(!node.linked_list.ids().contains(key.linked_list_node_id));
                    }
                }
                node.linked_list.get(key.linked_list_node_id)
            }
        }
    }

    /// The level carrying a price, if any level does.
    #[verifier::loop_isolation(false)]
    pub fn get_by_price(&self, price: u32) -> (r: Option<&PriceNode>)
        requires
            self.wf(),
        ensures
            has_price(self.levels(), price) ==> (r matches Some(n) && n.wf() && n.spec_price()
                == price && n.orders() == self.levels()[index_of_price(self.levels(),
            price)].orders),
            !has_price(self.levels(), price) ==> r is None,
    {
        let mut k: usize = 0;
        while k < self.tree.len() && self.tree[k].0 != price
            invariant
                k <= self.tree@.len(),
                forall|j: int| 0 <= j < k ==> (#[trigger] self.tree@[j]).0 != price,
            decreases self.tree@.len() - k,
        {
            k += 1;
        }
        if k < self.tree.len() {
            proof {
                assert(self.levels()[k as int].price == price);
                assert(has_price(self.levels(), price));
                let ki = index_of_price(self.levels(), price);
                assert(self.levels()[ki].price == price);
                assert(ki == k as int) by {
                    if ki < k {
                        assert(self.tree@[ki].0 != price);
                    }
                    if ki > k {
                        assert(self.tree@[k as int].0 < self.tree@[ki].0);
                        assert(self.levels()[ki].price == self.tree@[ki].0);
                    }
                }
                assert(self.node_at(k as int).wf());
            }
            let node_id = self.tree[k].1;
            Some(self.arena.get(node_id).unwrap())
        } else {
            proof {
                assert(!has_price(self.levels(), price)) by {
                    if has_price(self.levels(), price) {
                        let j = choose|j: int|
                            0 <= j < self.levels().len() && self.levels()[j].price == price;
                        assert(self.tree@[j].0 == price);
                    }
                }
            }
            None
        }
    }

    /// The price, aggregate quantity, and order count of one level.
    pub fn level_summary(&self, k: usize) -> (r: (u32, u32, usize))
        requires
            self.wf(),
            k < self.levels().len(),
        ensures
            r.0 == self.levels()[k as int].price,
            r.1 == sum_quantities(self.levels()[k as int].orders),
            r.2 == self.levels()[k as int].orders.len(),
    {
        proof {
            assert(self.node_at(k as int).wf());
        }
        let node_id = self.tree[k].1;
        let node = self.arena.get(node_id).unwrap();
        (node.price(), node.total_quantity(), node.num_orders())
    }

    /// The oldest order at the best level — the lowest price when walking
    /// upward, the highest when walking downward — with its handle.
    pub fn front_at_best(&self, ascending: bool) -> (r: Option<(OrderKey, Order)>)
        requires
            self.wf(),
        ensures
            self.levels().len() == 0 ==> r is None,
            self.levels().len() > 0 ==> ({
                let li: int = if ascending { 0 } else { self.levels().len() - 1 };
                r matches Some((key, o)) && self.key_valid(key) && self.key_level(key) == li
                    && self.key_slot(key) == 0 && o.ov() == self.levels()[li].orders[0] && o.price
                    == self.levels()[li].price
            }),
    {
        if self.tree.len() == 0 {
            return None;
        }
        let idx: usize = if ascending {
            0
        } else {
            self.tree.len() - 1
        };
        let ghost li = idx as int;
        proof {
            assert(self.node_at(li).wf());
            self.lemma_node_ids_distinct();
        }
        let node_id = self.tree[idx].1;
        let node = self.arena.get(node_id).unwrap();
        proof {
            node.linked_list.lemma_ids_distinct();
        }
        match node.linked_list.front_entry() {
            Some((lid, o)) => {
                proof {
                    let ids = node.linked_list.ids();
                    assert(ids[0] == lid);
                    assert(ids.contains(lid));
                    let key = OrderKey { price_node_id: node_id, linked_list_node_id: lid };
                    assert(self.key_valid(key)) by {
                        assert(self.tree@[li].1 == key.price_node_id);
                    }
                    assert(self.key_level(key) == li) by {
                        let jq = self.key_level(key);
                        assert(self.tree@[li].1 == key.price_node_id);
                    }
                    assert(self.key_slot(key) == 0) by {
                        let p = ids.index_of(lid);
                        assert(0 <= p < ids.len() && ids[p] == lid);
                    }
                    assert(node.linked_list.vals()[0] == node.linked_list@[0].1);
                    assert(o.ov() == self.levels()[li].orders[0]);
                }
                Some((OrderKey::new(node_id, lid), *o))
            }
            None => {
                proof {
                    assert(false);
                }
                None
            }
        }
    }

    pub fn iter(&self) -> (r: PriceTreeIterator)
        requires
            self.wf(),
        ensures
            r.wf(),
            r.levels() == self.levels(),
            r.lo() == 0,
            r.hi() == self.levels().len(),
    {
        PriceTreeIterator { ladder: self, front_pos: 0, back_pos: self.tree.len() }
    }
}

/// A cursor over a ladder's levels, yielding each level's node handle and
/// node; `next` walks prices upward, `next_back` walks them downward, and
/// the cursor is exhausted when the two ends meet.
pub struct PriceTreeIterator<'a> {
    ladder: &'a PriceTree,
    front_pos: usize,
    back_pos: usize,
}

impl<'a> PriceTreeIterator<'a> {
    pub closed spec fn wf(&self) -> bool {
        &&& self.ladder.wf()
        &&& self.front_pos <= self.back_pos <= self.ladder.levels().len()
    }

    pub closed spec fn levels(&self) -> Seq<LevelView> {
        self.ladder.levels()
    }

    pub closed spec fn lo(&self) -> int {
        self.front_pos as int
    }

    pub closed spec fn hi(&self) -> int {
        self.back_pos as int
    }

    pub fn next(&mut self) -> (r: Option<(usize, &'a PriceNode)>)
        requires
            old(self).wf(),
        ensures
            final(self).wf(),
            final(self).levels() == old(self).levels(),
            final(self).hi() == old(self).hi(),
            old(self).lo() == old(self).hi() ==> r is None && final(self).lo() == old(self).lo(),
            old(self).lo() < old(self).hi() ==> final(self).lo() == old(self).lo() + 1
                && (r matches Some((id, n)) && n.wf() && n.spec_price() == old(self).levels()[old(
                self).lo()].price && n.orders() == old(self).levels()[old(self).lo()].orders),
    {
        if self.front_pos < self.back_pos {
            proof {
                assert(self.ladder.node_at(self.front_pos as int).wf());
            }
            let node_id = self.ladder.tree[self.front_pos].1;
            self.front_pos += 1;
            Some((node_id, self.ladder.arena.get(node_id).unwrap()))
        } else {
            None
        }
    }

    pub fn next_back(&mut self) -> (r: Option<(usize, &'a PriceNode)>)
        requires
            old(self).wf(),
        ensures
            final(self).wf(),
            final(self).levels() == old(self).levels(),
            final(self).lo() == old(self).lo(),
            old(self).lo() == old(self).hi() ==> r is None && final(self).hi() == old(self).hi(),
            old(self).lo() < old(self).hi() ==> final(self).hi() == old(self).hi() - 1
                && (r matches Some((id, n)) && n.wf() && n.spec_price() == old(self).levels()[old(
                self).hi() - 1].price && n.orders() == old(self).levels()[old(self).hi()
                - 1].orders),
    {
        if self.front_pos < self.back_pos {
            proof {
                assert(self.ladder.node_at(self.back_pos - 1).wf());
            }
            let node_id = self.ladder.tree[self.back_pos - 1].1;
            self.back_pos -= 1;
            Some((node_id, self.ladder.arena.get(node_id).unwrap()))
        } else {
            None
        }
    }
}

} // verus!
