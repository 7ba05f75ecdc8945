//! The order book: one ladder per side, an id index for cancellation, a
//! tombstone set for ids that have left the book, and the price-time
//! priority matching engine.
//!
//! Matching is specified by [`walk_match`]: the incoming order walks the
//! opposite ladder best price first, consumes resting orders oldest first
//! within each level, and stops at the first price it cannot accept or when
//! its quantity is exhausted. The executable engine is proved to produce
//! exactly that walk's fills and final ladder.

use vstd::prelude::*;
use vstd::arithmetic::div_mod::{lemma_mod_multiples_vanish, lemma_small_mod};
use crate::order::{random_order_id, current_timestamp, Order, OrderView};
use crate::price_tree::{
    has_price, index_of_price, lemma_lower_bound, lower_bound, sorted_levels, sum_quantities,
    LevelView, OrderKey, PriceTree,
};

verus! {

/// Order ids carry a per-book sequence in their low 64 bits, which makes
/// every id minted by one book distinct from all ids it minted before.
pub const ID_SALT_MODULUS: u128 = 0x1_0000_0000_0000_0000;

/// The side an order rests on; matching always runs against the opposite
/// side's ladder.
#[derive(Clone, Copy, Debug, PartialEq, Eq, Structural)]
pub enum OrderType {
    Bid,
    Ask,
}

/// A rejected place request: price or quantity was zero.
#[derive(Clone, Copy, Debug, PartialEq, Eq, Structural)]
pub enum PlaceError {
    Rejected,
}

/// A failed cancel: the order already left the book, or the id was never
/// seen.
#[derive(Clone, Copy, Debug, PartialEq, Eq, Structural)]
pub enum CancelError {
    AlreadyGone,
    Unknown,
}

/// One trade event, emitted in walk order while a place request matches.
#[derive(Clone, Copy, Debug, PartialEq, Eq, Structural)]
pub struct Fill {
    /// Monotonically increasing across the engine's lifetime.
    pub sequence: u64,
    pub aggressor_side: OrderType,
    pub aggressor_id: u128,
    pub resting_id: u128,
    /// Always the resting order's price.
    pub price: u32,
    pub quantity: u32,
}

/// One step of the matching walk as the specification describes it: which
/// resting order traded, at what price, how much, and whether the resting
/// order was consumed entirely.
pub struct FillPart {
    pub resting_id: u128,
    pub price: u32,
    pub quantity: u32,
    pub full: bool,
}

/// One aggregated row of the Level-2 view.
#[derive(Clone, Copy, Debug, PartialEq, Eq, Structural)]
pub struct L2Entry {
    pub price: u32,
    pub total_quantity: u32,
    pub num_orders: usize,
}

/// The aggregated book: bids best (highest) first, asks best (lowest)
/// first.
#[derive(Debug)]
pub struct L2Book {
    pub bid: Vec<L2Entry>,
    pub ask: Vec<L2Entry>,
}

/// Whether an aggressor walking in this direction can trade at this level:
/// walking asks upward it accepts prices up to its limit, walking bids
/// downward it accepts prices down to its limit. Crossing is non-strict.
pub open spec fn price_acceptable(ascending: bool, level_price: u32, limit: u32) -> bool {
    if ascending {
        level_price <= limit
    } else {
        level_price >= limit
    }
}

/// Matching within one level: consume resting orders oldest first; the last
/// one touched may be consumed only partly, in which case it stays with its
/// quantity reduced.
pub open spec fn level_match(price: u32, orders: Seq<OrderView>, qty: u32) -> (
    Seq<FillPart>,
    u32,
    Seq<OrderView>,
)
    decreases orders.len(),
{
    if qty == 0 || orders.len() == 0 {
        (Seq::<FillPart>::empty(), qty, orders)
    } else if orders[0].quantity <= qty {
        let rec = level_match(
            price,
            orders.subrange(1, orders.len() as int),
            (qty - orders[0].quantity) as u32,
        );
        (
            seq![
                FillPart {
                    resting_id: orders[0].id,
                    price,
                    quantity: orders[0].quantity,
                    full: true,
                },
            ] + rec.0,
            rec.1,
            rec.2,
        )
    } else {
        (
            seq![FillPart { resting_id: orders[0].id, price, quantity: qty, full: false }],
            0u32,
            orders.update(
                0,
                OrderView { id: orders[0].id, quantity: (orders[0].quantity - qty) as u32 },
            ),
        )
    }
}

/// The whole matching walk: visit levels in aggressor-favourable order
/// (ascending asks for a bid, descending bids for an ask), stop at the
/// first unacceptable price or when the quantity is exhausted, and return
/// the fill trace, the unfilled remainder, and the ladder that is left.
pub open spec fn walk_match(levels: Seq<LevelView>, limit: u32, ascending: bool, qty: u32) -> (
    Seq<FillPart>,
    u32,
    Seq<LevelView>,
)
    decreases levels.len(),
{
    if qty == 0 || levels.len() == 0 {
        (Seq::<FillPart>::empty(), qty, levels)
    } else {
        let li: int = if ascending {
            0
        } else {
            levels.len() - 1
        };
        let lv = levels[li];
        if !price_acceptable(ascending, lv.price, limit) {
            (Seq::<FillPart>::empty(), qty, levels)
        } else {
            let lm = level_match(lv.price, lv.orders, qty);
            let rest = if ascending {
                levels.subrange(1, levels.len() as int)
            } else {
                levels.subrange(0, levels.len() - 1)
            };
            if lm.2.len() == 0 {
                let rec = walk_match(rest, limit, ascending, lm.1);
                (lm.0 + rec.0, rec.1, rec.2)
            } else {
                let lv2 = LevelView { price: lv.price, orders: lm.2 };
                (
                    lm.0,
                    lm.1,
                    if ascending {
                        seq![lv2] + rest
                    } else {
                        rest.push(lv2)
                    },
                )
            }
        }
    }
}

/// The total quantity traded by a fill trace.
pub open spec fn sum_fill_qty(fills: Seq<FillPart>) -> int
    decreases fills.len(),
{
    if fills.len() == 0 {
        0
    } else {
        fills[0].quantity + sum_fill_qty(fills.subrange(1, fills.len() as int))
    }
}

/// Whether some resting order in the ladder carries this id.
pub open spec fn order_id_in_levels(levels: Seq<LevelView>, id: u128) -> bool {
    exists|l: int, j: int|
        0 <= l < levels.len() && 0 <= j < levels[l].orders.len() && levels[l].orders[j].id == id
}

/// Whether this fill trace consumed the order with this id entirely.
pub open spec fn consumed_by(fills: Seq<FillPart>, id: u128) -> bool {
    exists|k: int| 0 <= k < fills.len() && fills[k].full && (#[trigger] fills[k]).resting_id == id
}

/// No id occurs twice across the ladder.
pub open spec fn ids_distinct(levels: Seq<LevelView>) -> bool {
    forall|l1: int, j1: int, l2: int, j2: int|
        0 <= l1 < levels.len() && 0 <= j1 < levels[l1].orders.len() && 0 <= l2 < levels.len()
            && 0 <= j2 < levels[l2].orders.len() && (l1 != l2 || j1 != j2)
            ==> levels[l1].orders[j1].id != levels[l2].orders[j2].id
}

/// No id occurs on both ladders.
pub open spec fn ids_disjoint(a: Seq<LevelView>, b: Seq<LevelView>) -> bool {
    forall|l1: int, j1: int, l2: int, j2: int|
        0 <= l1 < a.len() && 0 <= j1 < a[l1].orders.len() && 0 <= l2 < b.len() && 0 <= j2
            < b[l2].orders.len() ==> a[l1].orders[j1].id != b[l2].orders[j2].id
}

/// Every resting order still has quantity to trade.
pub open spec fn levels_positive(levels: Seq<LevelView>) -> bool {
    forall|l: int, j: int|
        0 <= l < levels.len() && 0 <= j < levels[l].orders.len() ==> levels[l].orders[j].quantity
            > 0
}

pub proof fn lemma_sum_fill_push(fills: Seq<FillPart>, f: FillPart)
    ensures
        sum_fill_qty(fills.push(f)) == sum_fill_qty(fills) + f.quantity,
    decreases fills.len(),
{
    let t = fills.push(f);
    if fills.len() == 0 {
        assert(t[0] == f);
        assert(t.len() as int == 1);
        assert(t.subrange(1, 1) =~= Seq::<FillPart>::empty());
        assert(sum_fill_qty(t) == t[0].quantity + sum_fill_qty(t.subrange(1, t.len() as int)));
        assert(sum_fill_qty(t.subrange(1, t.len() as int)) == 0);
        assert(sum_fill_qty(fills) == 0);
    } else {
        assert(t[0] == fills[0]);
        assert(t.subrange(1, t.len() as int) =~= fills.subrange(1, fills.len() as int).push(f));
        lemma_sum_fill_push(fills.subrange(1, fills.len() as int), f);
    }
}

pub proof fn lemma_sum_fill_concat(a: Seq<FillPart>, b: Seq<FillPart>)
    ensures
        sum_fill_qty(a + b) == sum_fill_qty(a) + sum_fill_qty(b),
    decreases a.len(),
{
    if a.len() == 0 {
        assert(a + b =~= b);
    } else {
        assert((a + b)[0] == a[0]);
        assert((a + b).subrange(1, (a + b).len() as int) =~= a.subrange(1, a.len() as int) + b);
        lemma_sum_fill_concat(a.subrange(1, a.len() as int), b);
    }
}

/// Within a level: trading conserves quantity, each fill trades with the
/// orders in queue order (a prefix of the queue), a leftover remainder
/// means the level was drained, and fills are never empty trades.
pub proof fn lemma_level_match_basic(price: u32, orders: Seq<OrderView>, qty: u32)
    requires
        forall|j: int| 0 <= j < orders.len() ==> (#[trigger] orders[j]).quantity > 0,
    ensures
        ({
            let lm = level_match(price, orders, qty);
            &&& sum_fill_qty(lm.0) + lm.1 == qty
            &&& lm.0.len() + lm.1 <= qty
            &&& lm.1 > 0 ==> lm.2.len() == 0
            &&& lm.0.len() <= orders.len()
            &&& forall|k: int|
                0 <= k < lm.0.len() ==> (#[trigger] lm.0[k]).price == price && lm.0[k].quantity
                    > 0 && lm.0[k].resting_id == orders[k].id && lm.0[k].quantity <= orders[
                    k].quantity
        }),
    decreases orders.len(),
{
    let lm = level_match(price, orders, qty);
    if qty == 0 || orders.len() == 0 {
    } else if orders[0].quantity <= qty {
        let rest = orders.subrange(1, orders.len() as int);
        let q2 = (qty - orders[0].quantity) as u32;
        lemma_level_match_basic(price, rest, q2);
        let rec = level_match(price, rest, q2);
        let f0 = FillPart {
            resting_id: orders[0].id,
            price,
            quantity: orders[0].quantity,
            full: true,
        };
        assert(lm.0 == seq![f0] + rec.0);
        assert(lm.0[0] == f0);
        assert((seq![f0] + rec.0).subrange(1, (seq![f0] + rec.0).len() as int) =~= rec.0);
        assert(sum_fill_qty(lm.0) == f0.quantity + sum_fill_qty(rec.0));
        assert forall|k: int| 0 <= k < lm.0.len() implies (#[trigger] lm.0[k]).price == price
            && lm.0[k].quantity > 0 && lm.0[k].resting_id == orders[k].id && lm.0[k].quantity
            <= orders[k].quantity by {
            if k > 0 {
                assert(lm.0[k] == rec.0[k - 1]);
                assert(rest[k - 1] == orders[k]);
            }
        }
    } else {
        let fp = FillPart { resting_id: orders[0].id, price, quantity: qty, full: false };
        assert(lm.0 == seq![fp]);
        assert(lm.0[0] == fp);
        assert(lm.0.len() as int == 1);
        assert(lm.0.subrange(1, 1) =~= Seq::<FillPart>::empty());
        assert(sum_fill_qty(lm.0) == fp.quantity + sum_fill_qty(
            lm.0.subrange(1, lm.0.len() as int)));
        assert(sum_fill_qty(lm.0) == qty);
    }
}

/// The whole walk conserves quantity, trades at most `qty` times, leaves
/// only unacceptable prices behind when quantity remains, keeps every
/// surviving level at a price the ladder already had, keeps quantities
/// positive, and reports prices in aggressor-favourable order.
pub proof fn lemma_walk_basic(levels: Seq<LevelView>, limit: u32, ascending: bool, qty: u32)
    requires
        sorted_levels(levels),
        levels_positive(levels),
    ensures
        ({
            let w = walk_match(levels, limit, ascending, qty);
            &&& sum_fill_qty(w.0) + w.1 == qty
            &&& w.0.len() + w.1 <= qty
            &&& w.1 > 0 ==> forall|i: int|
                0 <= i < w.2.len() ==> !price_acceptable(
                    ascending,
                    (#[trigger] w.2[i]).price,
                    limit,
                )
            &&& forall|i: int|
                0 <= i < w.2.len() ==> level_price_in(levels, (#[trigger] w.2[i]).price)
            &&& levels_positive(w.2)
            &&& sorted_levels(w.2)
            &&& forall|k: int|
                0 <= k < w.0.len() ==> price_acceptable(
                    ascending,
                    (#[trigger] w.0[k]).price,
                    limit,
                ) && w.0[k].quantity > 0
            &&& forall|k1: int, k2: int|
                0 <= k1 < k2 < w.0.len() ==> (if ascending {
                    (#[trigger] w.0[k1]).price <= (#[trigger] w.0[k2]).price
                } else {
                    w.0[k1].price >= w.0[k2].price
                })
        }),
    decreases levels.len(),
{
    let w = walk_match(levels, limit, ascending, qty);
    if qty == 0 || levels.len() == 0 {
    } else {
        let li: int = if ascending {
            0
        } else {
            levels.len() - 1
        };
        let lv = levels[li];
        if !price_acceptable(ascending, lv.price, limit) {
        } else {
            assert(forall|j: int|
                0 <= j < lv.orders.len() ==> (#[trigger] lv.orders[j]).quantity > 0);
            lemma_level_match_basic(lv.price, lv.orders, qty);
            let lm = level_match(lv.price, lv.orders, qty);
            let rest = if ascending {
                levels.subrange(1, levels.len() as int)
            } else {
                levels.subrange(0, levels.len() - 1)
            };
            assert(sorted_levels(rest));
            assert(levels_positive(rest)) by {
                assert forall|l: int, j: int|
                    0 <= l < rest.len() && 0 <= j < rest[l].orders.len() implies rest[l].orders[
                    j].quantity > 0 by {
                    if ascending {
                        assert(rest[l] == levels[l + 1]);
                    } else {
                        assert(rest[l] == levels[l]);
                    }
                }
            }
            if lm.2.len() == 0 {
                lemma_walk_basic(rest, limit, ascending, lm.1);
                let rec = walk_match(rest, limit, ascending, lm.1);
                lemma_sum_fill_concat(lm.0, rec.0);
                assert(w.0 == lm.0 + rec.0 && w.1 == rec.1 && w.2 == rec.2);
                assert forall|k: int| 0 <= k < w.0.len() implies price_acceptable(
                    ascending,
                    (#[trigger] w.0[k]).price,
                    limit,
                ) && w.0[k].quantity > 0 by {
                    if k < lm.0.len() {
                        assert(w.0[k] == lm.0[k]);
                        assert(lm.0[k].price == lv.price);
                    } else {
                        assert(w.0[k] == rec.0[k - lm.0.len()]);
                    }
                }
                assert forall|k1: int, k2: int| 0 <= k1 < k2 < w.0.len() implies (if ascending {
                    (#[trigger] w.0[k1]).price <= (#[trigger] w.0[k2]).price
                } else {
                    w.0[k1].price >= w.0[k2].price
                }) by {
                    if k2 < lm.0.len() {
                        assert(w.0[k1] == lm.0[k1] && w.0[k2] == lm.0[k2]);
                    } else if k1 >= lm.0.len() {
                        assert(w.0[k1] == rec.0[k1 - lm.0.len()] && w.0[k2] == rec.0[k2
                            - lm.0.len()]);
                    } else {
                        // A fill at this level against a fill further on.
                        assert(w.0[k1] == lm.0[k1] && w.0[k1].price == lv.price);
                        let kr = k2 - lm.0.len();
                        assert(w.0[k2] == rec.0[kr]);
                        assert(level_price_in(rest, rec.0[kr].price)) by {
                            lemma_walk_fill_prices(rest, limit, ascending, lm.1);
                        }
                        let i0 = choose|i0: int|
                            0 <= i0 < rest.len() && rest[i0].price == rec.0[kr].price;
                        if ascending {
                            assert(rest[i0] == levels[i0 + 1]);
                            assert(lv.price < levels[i0 + 1].price);
                        } else {
                            assert(rest[i0] == levels[i0]);
                            assert(levels[i0].price < lv.price);
                        }
                    }
                }
                assert forall|i: int| 0 <= i < w.2.len() implies level_price_in(
                    levels,
                    (#[trigger] w.2[i]).price,
                ) by {
                    assert(level_price_in(rest, w.2[i].price));
                    let i0 = choose|i0: int|
                        0 <= i0 < rest.len() && rest[i0].price == w.2[i].price;
                    if ascending {
                        assert(levels[i0 + 1].price == w.2[i].price);
                    } else {
                        assert(levels[i0].price == w.2[i].price);
                    }
                }
            } else {
                let lv2 = LevelView { price: lv.price, orders: lm.2 };
                assert(w.0 == lm.0 && w.1 == lm.1 && lm.1 == 0);
                assert(w.2 == (if ascending {
                    seq![lv2] + rest
                } else {
                    rest.push(lv2)
                }));
                assert forall|i: int| 0 <= i < w.2.len() implies level_price_in(
                    levels,
                    (#[trigger] w.2[i]).price,
                ) by {
                    if ascending {
                        if i == 0 {
                            assert(levels[li].price == w.2[0].price);
                        } else {
                            assert(w.2[i] == rest[i - 1]);
                            assert(levels[i].price == w.2[i].price);
                        }
                    } else {
                        if i == w.2.len() - 1 {
                            assert(levels[li].price == w.2[i].price);
                        } else {
                            assert(w.2[i] == rest[i]);
                            assert(levels[i].price == w.2[i].price);
                        }
                    }
                }
                assert(levels_positive(w.2)) by {
                    assert forall|l: int, j: int|
                        0 <= l < w.2.len() && 0 <= j < w.2[l].orders.len() implies w.2[l].orders[
                        j].quantity > 0 by {
                        lemma_level_match_remainder(lv.price, lv.orders, qty);
                        if ascending {
                            if l > 0 {
                                assert(w.2[l] == levels[l]);
                            }
                        } else {
                            if l < w.2.len() - 1 {
                                assert(w.2[l] == levels[l]);
                            }
                        }
                    }
                }
                assert(sorted_levels(w.2)) by {
                    assert forall|l1: int, l2: int| 0 <= l1 < l2 < w.2.len() implies w.2[l1].price
                        < w.2[l2].price by {
                        if ascending {
                            let a: LevelView = if l1 == 0 {
                                levels[0]
                            } else {
                                levels[l1]
                            };
                            assert(w.2[l1].price == levels[l1].price);
                            assert(w.2[l2].price == levels[l2].price);
                        } else {
                            assert(w.2[l1].price == levels[l1].price);
                            assert(w.2[l2].price == levels[l2].price);
                        }
                    }
                }
            }
        }
    }
}

/// Whether some level of the ladder carries this price.
pub open spec fn level_price_in(levels: Seq<LevelView>, p: u32) -> bool {
    exists|i0: int| 0 <= i0 < levels.len() && levels[i0].price == p
}

/// Every fill of a walk trades at the price of some level of the ladder it
/// walked.
pub proof fn lemma_walk_fill_prices(levels: Seq<LevelView>, limit: u32, ascending: bool, qty: u32)
    ensures
        ({
            let w = walk_match(levels, limit, ascending, qty);
            forall|k: int|
                0 <= k < w.0.len() ==> level_price_in(levels, (#[trigger] w.0[k]).price)
        }),
    decreases levels.len(),
{
    let w = walk_match(levels, limit, ascending, qty);
    if qty == 0 || levels.len() == 0 {
    } else {
        let li: int = if ascending {
            0
        } else {
            levels.len() - 1
        };
        let lv = levels[li];
        if !price_acceptable(ascending, lv.price, limit) {
        } else {
            let lm = level_match(lv.price, lv.orders, qty);
            let rest = if ascending {
                levels.subrange(1, levels.len() as int)
            } else {
                levels.subrange(0, levels.len() - 1)
            };
            lemma_level_match_fill_prices(lv.price, lv.orders, qty);
            if lm.2.len() == 0 {
                lemma_walk_fill_prices(rest, limit, ascending, lm.1);
                let rec = walk_match(rest, limit, ascending, lm.1);
                assert forall|k: int| 0 <= k < w.0.len() implies level_price_in(
                    levels,
                    (#[trigger] w.0[k]).price,
                ) by {
                    if k < lm.0.len() {
                        assert(w.0[k] == lm.0[k]);
                        assert(levels[li].price == w.0[k].price);
                    } else {
                        let kr = k - lm.0.len();
                        assert(w.0[k] == rec.0[kr]);
                        assert(level_price_in(rest, rec.0[kr].price));
                        let i0 = choose|i0: int|
                            0 <= i0 < rest.len() && rest[i0].price == rec.0[kr].price;
                        if ascending {
                            assert(rest[i0] == levels[i0 + 1]);
                            assert(levels[i0 + 1].price == w.0[k].price);
                        } else {
                            assert(rest[i0] == levels[i0]);
                            assert(levels[i0].price == w.0[k].price);
                        }
                    }
                }
            } else {
                assert forall|k: int| 0 <= k < w.0.len() implies level_price_in(
                    levels,
                    (#[trigger] w.0[k]).price,
                ) by {
                    assert(w.0[k] == lm.0[k]);
                    assert(levels[li].price == w.0[k].price);
                }
            }
        }
    }
}

/// Whether a fill names a resting order of the ladder, trades at that
/// order's level price, and trades no more than the order had left.
pub open spec fn fill_within(levels: Seq<LevelView>, f: FillPart) -> bool {
    exists|l: int, j: int|
        0 <= l < levels.len() && 0 <= j < levels[l].orders.len() && (#[trigger] levels[l].orders[
        j]).id == f.resting_id && f.quantity <= levels[l].orders[j].quantity && levels[l].price
            == f.price
}

/// Every fill of a walk trades against a resting order of the ladder it
/// walked, and never more than that order's pre-fill quantity.
pub proof fn lemma_walk_fill_bounds(levels: Seq<LevelView>, limit: u32, ascending: bool, qty: u32)
    requires
        levels_positive(levels),
    ensures
        ({
            let w = walk_match(levels, limit, ascending, qty);
            forall|k: int| 0 <= k < w.0.len() ==> fill_within(levels, #[trigger] w.0[k])
        }),
    decreases levels.len(),
{
    let w = walk_match(levels, limit, ascending, qty);
    if qty == 0 || levels.len() == 0 {
    } else {
        let li: int = if ascending {
            0
        } else {
            levels.len() - 1
        };
        let lv = levels[li];
        if !price_acceptable(ascending, lv.price, limit) {
        } else {
            assert(forall|j: int|
                0 <= j < lv.orders.len() ==> (#[trigger] lv.orders[j]).quantity > 0);
            lemma_level_match_basic(lv.price, lv.orders, qty);
            let lm = level_match(lv.price, lv.orders, qty);
            let rest = if ascending {
                levels.subrange(1, levels.len() as int)
            } else {
                levels.subrange(0, levels.len() - 1)
            };
            let off: int = if ascending {
                1
            } else {
                0
            };
            assert(forall|l: int| 0 <= l < rest.len() ==> rest[l] == levels[l + off]);
            assert(levels_positive(rest)) by {
                assert forall|l: int, j: int|
                    0 <= l < rest.len() && 0 <= j < rest[l].orders.len() implies rest[l].orders[
                    j].quantity > 0 by {
                    assert(rest[l] == levels[l + off]);
                }
            }
            if lm.2.len() == 0 {
                lemma_walk_fill_bounds(rest, limit, ascending, lm.1);
                let rec = walk_match(rest, limit, ascending, lm.1);
                assert forall|k: int| 0 <= k < w.0.len() implies fill_within(
                    levels,
                    #[trigger] w.0[k],
                ) by {
                    if k < lm.0.len() {
                        assert(w.0[k] == lm.0[k]);
                        assert(levels[li].orders[k].id == w.0[k].resting_id && w.0[k].quantity
                            <= levels[li].orders[k].quantity && levels[li].price == w.0[
                        k].price);
                    } else {
                        assert(w.0[k] == rec.0[k - lm.0.len()]);
                        assert(fill_within(rest, w.0[k]));
                        let (l, j) = choose|l: int, j: int|
                            0 <= l < rest.len() && 0 <= j < rest[l].orders.len() && (
                            #[trigger] rest[l].orders[j]).id == w.0[k].resting_id && w.0[
                            k].quantity <= rest[l].orders[j].quantity && rest[l].price == w.0[
                            k].price;
                        assert(levels[l + off].orders[j].id == w.0[k].resting_id && w.0[
                        k].quantity <= levels[l + off].orders[j].quantity && levels[l
                            + off].price == w.0[k].price);
                    }
                }
            } else {
                assert forall|k: int| 0 <= k < w.0.len() implies fill_within(
                    levels,
                    #[trigger] w.0[k],
                ) by {
                    assert(w.0[k] == lm.0[k]);
                    assert(levels[li].orders[k].id == w.0[k].resting_id && w.0[k].quantity
                        <= levels[li].orders[k].quantity && levels[li].price == w.0[k].price);
                }
            }
        }
    }
}

/// Every fill of a level trades at that level's price.
pub proof fn lemma_level_match_fill_prices(price: u32, orders: Seq<OrderView>, qty: u32)
    ensures
        ({
            let lm = level_match(price, orders, qty);
            forall|k: int| 0 <= k < lm.0.len() ==> (#[trigger] lm.0[k]).price == price
        }),
    decreases orders.len(),
{
    if qty == 0 || orders.len() == 0 {
    } else if orders[0].quantity <= qty {
        lemma_level_match_fill_prices(
            price,
            orders.subrange(1, orders.len() as int),
            (qty - orders[0].quantity) as u32,
        );
        let lm = level_match(price, orders, qty);
        let rec = level_match(
            price,
            orders.subrange(1, orders.len() as int),
            (qty - orders[0].quantity) as u32,
        );
        assert forall|k: int| 0 <= k < lm.0.len() implies (#[trigger] lm.0[k]).price == price by {
            if k > 0 {
                assert(lm.0[k] == rec.0[k - 1]);
            }
        }
    } else {
    }
}

/// One full-fill step of the walk: consuming the whole front order of the
/// best acceptable level commutes with the walk on the ladder that is left.
pub proof fn lemma_walk_step_full(levels: Seq<LevelView>, limit: u32, ascending: bool, qty: u32)
    requires
        qty > 0,
        levels.len() > 0,
        ({
            let li: int = if ascending {
                0
            } else {
                levels.len() - 1
            };
            levels[li].orders.len() > 0 && price_acceptable(ascending, levels[li].price, limit)
                && levels[li].orders[0].quantity <= qty
        }),
    ensures
        ({
            let li: int = if ascending {
                0
            } else {
                levels.len() - 1
            };
            let o = levels[li].orders[0];
            let levels2 = if levels[li].orders.len() == 1 {
                levels.remove(li)
            } else {
                levels.update(
                    li,
                    LevelView { price: levels[li].price, orders: levels[li].orders.remove(0) },
                )
            };
            let w2 = walk_match(levels2, limit, ascending, (qty - o.quantity) as u32);
            let w = walk_match(levels, limit, ascending, qty);
            &&& w.0 == seq![
                FillPart {
                    resting_id: o.id,
                    price: levels[li].price,
                    quantity: o.quantity,
                    full: true,
                },
            ] + w2.0
            &&& w.1 == w2.1
            &&& w.2 == w2.2
        }),
{
    let li: int = if ascending {
        0
    } else {
        levels.len() - 1
    };
    let lv = levels[li];
    let o = lv.orders[0];
    let q2 = (qty - o.quantity) as u32;
    let f0 = FillPart { resting_id: o.id, price: lv.price, quantity: o.quantity, full: true };
    let sub = lv.orders.subrange(1, lv.orders.len() as int);
    let rec_l = level_match(lv.price, sub, q2);
    let lm = level_match(lv.price, lv.orders, qty);
    assert(lm.0 == seq![f0] + rec_l.0 && lm.1 == rec_l.1 && lm.2 == rec_l.2);
    let rest = if ascending {
        levels.subrange(1, levels.len() as int)
    } else {
        levels.subrange(0, levels.len() - 1)
    };
    let w = walk_match(levels, limit, ascending, qty);
    if lv.orders.len() == 1 {
        let levels2 = levels.remove(li);
        assert(sub =~= Seq::<OrderView>::empty());
        assert(rec_l.0 =~= Seq::<FillPart>::empty() && rec_l.1 == q2 && rec_l.2 =~= Seq::<
            OrderView,
        >::empty());
        assert(lm.2.len() == 0);
        assert(levels2 =~= rest);
        let w2 = walk_match(rest, limit, ascending, q2);
        assert(w.0 == lm.0 + w2.0 && w.1 == w2.1 && w.2 == w2.2);
        assert(lm.0 =~= seq![f0]);
        assert(w.0 =~= seq![f0] + w2.0);
    } else {
        let lv2 = LevelView { price: lv.price, orders: lv.orders.remove(0) };
        let levels2 = levels.update(li, lv2);
        assert(lv.orders.remove(0) =~= sub);
        let li2: int = if ascending {
            0
        } else {
            levels2.len() - 1
        };
        assert(li2 == li && levels2[li2] == lv2);
        let rest2 = if ascending {
            levels2.subrange(1, levels2.len() as int)
        } else {
            levels2.subrange(0, levels2.len() - 1)
        };
        assert(rest2 =~= rest);
        let w2 = walk_match(levels2, limit, ascending, q2);
        if q2 == 0 {
            assert(w2.0 =~= Seq::<FillPart>::empty() && w2.1 == 0 && w2.2 == levels2);
            assert(rec_l.0 =~= Seq::<FillPart>::empty() && rec_l.1 == 0 && rec_l.2 == sub);
            assert(lm.2 == sub && sub.len() > 0);
            assert(w.0 == lm.0 && w.1 == 0);
            assert(w.2 == (if ascending {
                seq![LevelView { price: lv.price, orders: sub }] + rest
            } else {
                rest.push(LevelView { price: lv.price, orders: sub })
            }));
            assert(w.2 =~= levels2);
            assert(lm.0 =~= seq![f0]);
            assert(w.0 =~= seq![f0] + w2.0);
        } else {
            let lm2 = level_match(lv.price, sub, q2);
            assert(lm2 == rec_l);
            if rec_l.2.len() == 0 {
                let recw = walk_match(rest, limit, ascending, rec_l.1);
                let recw2 = walk_match(rest2, limit, ascending, rec_l.1);
                assert(recw2 == recw);
                assert(w.0 == (seq![f0] + rec_l.0) + recw.0);
                assert(w2.0 == rec_l.0 + recw.0);
                assert(w.0 =~= seq![f0] + w2.0);
                assert(w.1 == recw.1 && w2.1 == recw.1);
                assert(w.2 == recw.2 && w2.2 == recw.2);
            } else {
                let lvr = LevelView { price: lv.price, orders: rec_l.2 };
                assert(w.0 == seq![f0] + rec_l.0 && w.1 == rec_l.1);
                assert(w2.0 == rec_l.0 && w2.1 == rec_l.1);
                assert(w.2 == (if ascending {
                    seq![lvr] + rest
                } else {
                    rest.push(lvr)
                }));
                assert(w2.2 == (if ascending {
                    seq![lvr] + rest2
                } else {
                    rest2.push(lvr)
                }));
                assert(w.2 =~= w2.2);
            }
        }
    }
}

/// One partial-fill step of the walk: when the front order of the best
/// acceptable level is larger than what is left to fill, the walk ends with
/// that single partial fill and the order's quantity reduced in place.
pub proof fn lemma_walk_step_partial(levels: Seq<LevelView>, limit: u32, ascending: bool, qty: u32)
    requires
        qty > 0,
        levels.len() > 0,
        ({
            let li: int = if ascending {
                0
            } else {
                levels.len() - 1
            };
            levels[li].orders.len() > 0 && price_acceptable(ascending, levels[li].price, limit)
                && levels[li].orders[0].quantity > qty
        }),
    ensures
        ({
            let li: int = if ascending {
                0
            } else {
                levels.len() - 1
            };
            let o = levels[li].orders[0];
            let levels2 = levels.update(
                li,
                LevelView {
                    price: levels[li].price,
                    orders: levels[li].orders.update(
                        0,
                        OrderView { id: o.id, quantity: (o.quantity - qty) as u32 },
                    ),
                },
            );
            let w = walk_match(levels, limit, ascending, qty);
            &&& w.0 == seq![
                FillPart {
                    resting_id: o.id,
                    price: levels[li].price,
                    quantity: qty,
                    full: false,
                },
            ]
            &&& w.1 == 0
            &&& w.2 == levels2
        }),
{
    let li: int = if ascending {
        0
    } else {
        levels.len() - 1
    };
    let lv = levels[li];
    let o = lv.orders[0];
    let lm = level_match(lv.price, lv.orders, qty);
    let rest = if ascending {
        levels.subrange(1, levels.len() as int)
    } else {
        levels.subrange(0, levels.len() - 1)
    };
    let w = walk_match(levels, limit, ascending, qty);
    let newo = OrderView { id: o.id, quantity: (o.quantity - qty) as u32 };
    assert(lm.0 == seq![FillPart { resting_id: o.id, price: lv.price, quantity: qty, full: false }]
        && lm.1 == 0 && lm.2 == lv.orders.update(0, newo));
    assert(lm.2.len() > 0);
    let lv2 = LevelView { price: lv.price, orders: lm.2 };
    assert(w.2 == (if ascending {
        seq![lv2] + rest
    } else {
        rest.push(lv2)
    }));
    assert(w.2 =~= levels.update(li, lv2));
}

/// The structural shape of matching within one level: the fills consume a
/// prefix of the queue, the remainder is the matching suffix with at most
/// its first order's quantity reduced, and a fill is full exactly when its
/// order lies in the consumed prefix.
pub proof fn lemma_level_match_shape(price: u32, orders: Seq<OrderView>, qty: u32)
    ensures
        ({
            let lm = level_match(price, orders, qty);
            let d = orders.len() - lm.2.len();
            &&& lm.0.len() <= orders.len()
            &&& lm.2.len() <= orders.len()
            &&& d <= lm.0.len()
            &&& forall|j: int| 0 < j < lm.2.len() ==> lm.2[j] == orders[d + j]
            &&& lm.2.len() > 0 ==> (#[trigger] lm.2[0]).id == orders[d as int].id
                && lm.2[0].quantity <= orders[d as int].quantity
            &&& forall|k: int|
                0 <= k < lm.0.len() ==> ((#[trigger] lm.0[k]).full <==> k < d)
            &&& forall|k: int|
                0 <= k < lm.0.len() ==> (#[trigger] lm.0[k]).resting_id == orders[k].id
        }),
    decreases orders.len(),
{
    let lm = level_match(price, orders, qty);
    if qty == 0 || orders.len() == 0 {
        assert(lm.2 == orders);
    } else if orders[0].quantity <= qty {
        let rest = orders.subrange(1, orders.len() as int);
        let q2 = (qty - orders[0].quantity) as u32;
        lemma_level_match_shape(price, rest, q2);
        let rec = level_match(price, rest, q2);
        let d = orders.len() - lm.2.len();
        let dr = rest.len() - rec.2.len();
        assert(lm.2 == rec.2 && d == dr + 1);
        assert forall|j: int| 0 < j < lm.2.len() implies lm.2[j] == orders[d + j] by {
            assert(rec.2[j] == rest[dr + j]);
            assert(rest[dr + j] == orders[d + j]);
        }
        if lm.2.len() > 0 {
            assert(rec.2[0].id == rest[dr as int].id);
            assert(rest[dr as int] == orders[d as int]);
        }
        assert forall|k: int| 0 <= k < lm.0.len() implies ((#[trigger] lm.0[k]).full <==> k < d)
            && lm.0[k].resting_id == orders[k].id by {
            if k > 0 {
                assert(lm.0[k] == rec.0[k - 1]);
                assert(rest[k - 1] == orders[k]);
            }
        }
    } else {
        let d = orders.len() - lm.2.len();
        assert(lm.2 == orders.update(
            0,
            OrderView { id: orders[0].id, quantity: (orders[0].quantity - qty) as u32 },
        ));
        assert(d == 0);
        assert forall|j: int| 0 < j < lm.2.len() implies lm.2[j] == orders[d + j] by {}
    }
}

/// How the walk moves order ids around: surviving ids were resting before,
/// every fill names a resting order, fully consumed ids are gone, ids that
/// were not fully consumed survive, and distinctness of ids is preserved.
#[verifier::rlimit(100)]
pub proof fn lemma_walk_ids(levels: Seq<LevelView>, limit: u32, ascending: bool, qty: u32)
    requires
        ids_distinct(levels),
    ensures
        ({
            let w = walk_match(levels, limit, ascending, qty);
            &&& forall|id: u128|
                #[trigger] order_id_in_levels(w.2, id) ==> order_id_in_levels(levels, id)
            &&& forall|k: int|
                0 <= k < w.0.len() ==> order_id_in_levels(
                    levels,
                    (#[trigger] w.0[k]).resting_id,
                )
            &&& forall|k: int|
                0 <= k < w.0.len() && (#[trigger] w.0[k]).full ==> !order_id_in_levels(
                    w.2,
                    w.0[k].resting_id,
                )
            &&& forall|id: u128|
                #[trigger] order_id_in_levels(levels, id) && !consumed_by(w.0, id)
                    ==> order_id_in_levels(w.2, id)
            &&& ids_distinct(w.2)
        }),
    decreases levels.len(),
{
    let w = walk_match(levels, limit, ascending, qty);
    if qty == 0 || levels.len() == 0 {
    } else {
        let li: int = if ascending {
            0
        } else {
            levels.len() - 1
        };
        let lv = levels[li];
        if !price_acceptable(ascending, lv.price, limit) {
        } else {
            let lm = level_match(lv.price, lv.orders, qty);
            lemma_level_match_shape(lv.price, lv.orders, qty);
            let d = lv.orders.len() - lm.2.len();
            let rest = if ascending {
                levels.subrange(1, levels.len() as int)
            } else {
                levels.subrange(0, levels.len() - 1)
            };
            // Positions in `rest` map to positions in `levels`.
            let off: int = if ascending {
                1
            } else {
                0
            };
            assert(forall|l: int| 0 <= l < rest.len() ==> rest[l] == levels[l + off]);
            assert(ids_distinct(rest));
            if lm.2.len() == 0 {
                lemma_walk_ids(rest, limit, ascending, lm.1);
                let rec = walk_match(rest, limit, ascending, lm.1);
                assert(w.0 == lm.0 + rec.0 && w.2 == rec.2);
                assert forall|id: u128| #[trigger] order_id_in_levels(w.2, id)
                    implies order_id_in_levels(levels, id) by {
                    assert(order_id_in_levels(rest, id));
                    let (l, j) = choose|l: int, j: int|
                        0 <= l < rest.len() && 0 <= j < rest[l].orders.len() && rest[l].orders[
                        j].id == id;
                    assert(levels[l + off].orders[j].id == id);
                }
                assert forall|k: int| 0 <= k < w.0.len() implies order_id_in_levels(
                    levels,
                    (#[trigger] w.0[k]).resting_id,
                ) by {
                    if k < lm.0.len() {
                        assert(w.0[k] == lm.0[k]);
                        assert(lm.0[k].resting_id == lv.orders[k].id);
                        assert(levels[li].orders[k].id == w.0[k].resting_id);
                    } else {
                        assert(w.0[k] == rec.0[k - lm.0.len()]);
                        assert(order_id_in_levels(rest, w.0[k].resting_id));
                        let (l, j) = choose|l: int, j: int|
                            0 <= l < rest.len() && 0 <= j < rest[l].orders.len() && rest[l].orders[
                            j].id == w.0[k].resting_id;
                        assert(levels[l + off].orders[j].id == w.0[k].resting_id);
                    }
                }
                assert forall|k: int| 0 <= k < w.0.len() && (#[trigger] w.0[k]).full
                    implies !order_id_in_levels(w.2, w.0[k].resting_id) by {
                    if k < lm.0.len() {
                        // A fill of the drained level: its id lives only at
                        // that level, which is gone.
                        assert(lm.0[k].resting_id == lv.orders[k].id);
                        if order_id_in_levels(w.2, w.0[k].resting_id) {
                            assert(order_id_in_levels(rest, w.0[k].resting_id));
                            let (l, j) = choose|l: int, j: int|
                                0 <= l < rest.len() && 0 <= j < rest[l].orders.len()
                                    && rest[l].orders[j].id == w.0[k].resting_id;
                            assert(levels[l + off].orders[j].id == levels[li].orders[k].id);
                            assert(l + off != li);
                        }
                    } else {
                        assert(w.0[k] == rec.0[k - lm.0.len()]);
                    }
                }
                assert forall|id: u128| #[trigger] order_id_in_levels(levels, id) && !consumed_by(
                    w.0,
                    id,
                ) implies order_id_in_levels(w.2, id) by {
                    let (l, j) = choose|l: int, j: int|
                        0 <= l < levels.len() && 0 <= j < levels[l].orders.len() && levels[
                        l].orders[j].id == id;
                    if l == li {
                        // Every order of the drained level was fully filled.
                        assert(lm.0[j].resting_id == lv.orders[j].id);
                        assert(lm.0[j].full);
                        assert(w.0[j] == lm.0[j]);
                        assert(consumed_by(w.0, id));
                    } else {
                        let lr = l - off;
                        assert(rest[lr].orders[j].id == id);
                        assert(order_id_in_levels(rest, id));
                        assert(!consumed_by(rec.0, id)) by {
                            if consumed_by(rec.0, id) {
                                let kr = choose|kr: int|
                                    0 <= kr < rec.0.len() && rec.0[kr].full && (#[trigger] rec.0[
                                    kr]).resting_id == id;
                                assert(w.0[lm.0.len() + kr] == rec.0[kr]);
                                assert(consumed_by(w.0, id));
                            }
                        }
                    }
                }
            } else {
                let lv2 = LevelView { price: lv.price, orders: lm.2 };
                assert(w.0 == lm.0 && w.1 == lm.1);
                assert(w.2 == (if ascending {
                    seq![lv2] + rest
                } else {
                    rest.push(lv2)
                }));
                // Positions of `rest` and of the surviving level in `w.2`.
                let li2: int = if ascending {
                    0
                } else {
                    w.2.len() - 1
                };
                let off2: int = if ascending {
                    1
                } else {
                    0
                };
                assert(w.2[li2] == lv2);
                assert(forall|l: int| 0 <= l < rest.len() ==> w.2[l + off2] == rest[l]);
                assert forall|id: u128| #[trigger] order_id_in_levels(w.2, id)
                    implies order_id_in_levels(levels, id) by {
                    let (l, j) = choose|l: int, j: int|
                        0 <= l < w.2.len() && 0 <= j < w.2[l].orders.len() && w.2[l].orders[j].id
                            == id;
                    if l == li2 {
                        if j == 0 {
                            assert(lm.2[0].id == lv.orders[d as int].id);
                            assert(levels[li].orders[d as int].id == id);
                        } else {
                            assert(lm.2[j] == lv.orders[d + j]);
                            assert(levels[li].orders[d + j].id == id);
                        }
                    } else {
                        let lr = l - off2;
                        assert(rest[lr].orders[j].id == id);
                        assert(levels[lr + off].orders[j].id == id);
                    }
                }
                assert forall|k: int| 0 <= k < w.0.len() implies order_id_in_levels(
                    levels,
                    (#[trigger] w.0[k]).resting_id,
                ) by {
                    assert(lm.0[k].resting_id == lv.orders[k].id);
                    assert(levels[li].orders[k].id == w.0[k].resting_id);
                }
                assert forall|k: int| 0 <= k < w.0.len() && (#[trigger] w.0[k]).full
                    implies !order_id_in_levels(w.2, w.0[k].resting_id) by {
                    assert(k < d);
                    assert(lm.0[k].resting_id == lv.orders[k].id);
                    if order_id_in_levels(w.2, w.0[k].resting_id) {
                        let (l, j) = choose|l: int, j: int|
                            0 <= l < w.2.len() && 0 <= j < w.2[l].orders.len() && w.2[l].orders[
                            j].id == w.0[k].resting_id;
                        if l == li2 {
                            // Inside the surviving level the id would have
                            // to repeat between prefix and suffix.
                            if j == 0 {
                                assert(w.2[l].orders[0].id == lv.orders[d as int].id);
                                assert(lv.orders[d as int].id == lv.orders[k].id);
                                assert(levels[li].orders[d as int].id == levels[li].orders[k].id);
                            } else {
                                assert(w.2[l].orders[j] == lv.orders[d + j]);
                                assert(levels[li].orders[d + j].id == levels[li].orders[k].id);
                            }
                        } else {
                            let lr = l - off2;
                            assert(rest[lr].orders[j].id == lv.orders[k].id);
                            assert(levels[lr + off].orders[j].id == levels[li].orders[k].id);
                            assert(lr + off != li);
                        }
                    }
                }
                assert forall|id: u128| #[trigger] order_id_in_levels(levels, id) && !consumed_by(
                    w.0,
                    id,
                ) implies order_id_in_levels(w.2, id) by {
                    let (l, j) = choose|l: int, j: int|
                        0 <= l < levels.len() && 0 <= j < levels[l].orders.len() && levels[
                        l].orders[j].id == id;
                    if l == li {
                        if j < d {
                            assert(lm.0[j].resting_id == lv.orders[j].id);
                            assert(lm.0[j].full);
                            assert(consumed_by(w.0, id));
                        } else if j == d {
                            assert(w.2[li2].orders[0].id == lv.orders[d as int].id);
                            assert(order_id_in_levels(w.2, id));
                        } else {
                            assert(w.2[li2].orders[j - d] == lv.orders[j]);
                            assert(order_id_in_levels(w.2, id));
                        }
                    } else {
                        let lr = l - off;
                        assert(rest[lr].orders[j].id == id);
                        assert(w.2[lr + off2].orders[j].id == id);
                        assert(order_id_in_levels(w.2, id));
                    }
                }
                assert forall|l1: int, j1: int, l2: int, j2: int|
                    0 <= l1 < w.2.len() && 0 <= j1 < w.2[l1].orders.len() && 0 <= l2 < w.2.len()
                        && 0 <= j2 < w.2[l2].orders.len() && (l1 != l2 || j1 != j2)
                    implies w.2[l1].orders[j1].id != w.2[l2].orders[j2].id by {
                    let a1: int = if l1 == li2 {
                        li
                    } else {
                        l1 - off2 + off
                    };
                    let b1: int = if l1 == li2 {
                        if j1 == 0 {
                            d
                        } else {
                            d + j1
                        }
                    } else {
                        j1
                    };
                    let a2: int = if l2 == li2 {
                        li
                    } else {
                        l2 - off2 + off
                    };
                    let b2: int = if l2 == li2 {
                        if j2 == 0 {
                            d
                        } else {
                            d + j2
                        }
                    } else {
                        j2
                    };
                    assert(w.2[l1].orders[j1].id == levels[a1].orders[b1].id) by {
                        if l1 == li2 {
                            if j1 == 0 {
                                assert(lm.2[0].id == lv.orders[d as int].id);
                            } else {
                                assert(lm.2[j1] == lv.orders[d + j1]);
                            }
                        } else {
                            assert(w.2[l1] == rest[l1 - off2]);
                            assert(rest[l1 - off2] == levels[l1 - off2 + off]);
                        }
                    }
                    assert(w.2[l2].orders[j2].id == levels[a2].orders[b2].id) by {
                        if l2 == li2 {
                            if j2 == 0 {
                                assert(lm.2[0].id == lv.orders[d as int].id);
                            } else {
                                assert(lm.2[j2] == lv.orders[d + j2]);
                            }
                        } else {
                            assert(w.2[l2] == rest[l2 - off2]);
                            assert(rest[l2 - off2] == levels[l2 - off2 + off]);
                        }
                    }
                    assert(a1 != a2 || b1 != b2);
                }
            }
        }
    }
}

/// Within a level the remainder is left with positive quantities.
pub proof fn lemma_level_match_remainder(price: u32, orders: Seq<OrderView>, qty: u32)
    requires
        forall|j: int| 0 <= j < orders.len() ==> (#[trigger] orders[j]).quantity > 0,
    ensures
        ({
            let lm = level_match(price, orders, qty);
            forall|j: int| 0 <= j < lm.2.len() ==> (#[trigger] lm.2[j]).quantity > 0
        }),
    decreases orders.len(),
{
    if qty == 0 || orders.len() == 0 {
    } else if orders[0].quantity <= qty {
        let rest = orders.subrange(1, orders.len() as int);
        lemma_level_match_remainder(price, rest, (qty - orders[0].quantity) as u32);
        let lm = level_match(price, orders, qty);
        let rec = level_match(price, rest, (qty - orders[0].quantity) as u32);
        assert(lm.2 == rec.2);
    } else {
        let lm = level_match(price, orders, qty);
        assert(lm.2 == orders.update(
            0,
            OrderView { id: orders[0].id, quantity: (orders[0].quantity - qty) as u32 },
        ));
        assert forall|j: int| 0 <= j < lm.2.len() implies (#[trigger] lm.2[j]).quantity > 0 by {
            if j > 0 {
                assert(lm.2[j] == orders[j]);
            } else {
                assert(lm.2[0].quantity == orders[0].quantity - qty);
            }
        }
    }
}


/// The set of ids the index currently maps.
pub open spec fn index_ids(s: Seq<(u128, OrderType, OrderKey)>) -> Set<u128> {
    Set::new(|id: u128| exists|k: int| 0 <= k < s.len() && (#[trigger] s[k]).0 == id)
}

/// The set of ids a tombstone list records.
pub open spec fn tomb_ids(s: Seq<u128>) -> Set<u128> {
    Set::new(|id: u128| s.contains(id))
}

/// The ids of resting orders a fill trace consumed entirely.
pub open spec fn full_fill_ids(fills: Seq<FillPart>) -> Set<u128> {
    Set::new(|id: u128| consumed_by(fills, id))
}

/// A ladder with one resting order removed; the level disappears with its
/// last order.
pub open spec fn remove_resting(levels: Seq<LevelView>, l: int, j: int) -> Seq<LevelView> {
    if levels[l].orders.len() == 1 {
        levels.remove(l)
    } else {
        levels.update(
            l,
            LevelView { price: levels[l].price, orders: levels[l].orders.remove(j) },
        )
    }
}

/// Conservation: the quantities a matching walk fills, plus the remainder
/// that would rest, add up to the incoming quantity.
pub proof fn lemma_conservation(levels: Seq<LevelView>, limit: u32, ascending: bool, qty: u32)
    requires
        sorted_levels(levels),
        levels_positive(levels),
    ensures
        sum_fill_qty(walk_match(levels, limit, ascending, qty).0) + walk_match(
            levels,
            limit,
            ascending,
            qty,
        ).1 == qty,
    decreases levels.len(),
{
    lemma_walk_basic(levels, limit, ascending, qty);
}

/// Two fills at one price trade against one level's queue in its order.
pub open spec fn fills_in_queue_order(levels: Seq<LevelView>, f1: FillPart, f2: FillPart) -> bool {
    exists|l: int, i1: int, i2: int|
        0 <= l < levels.len() && 0 <= i1 < i2 < levels[l].orders.len() && levels[l].price
            == f1.price && (#[trigger] levels[l].orders[i1]).id == f1.resting_id && (
        #[trigger] levels[l].orders[i2]).id == f2.resting_id
}

/// Price-time priority: a fill trace is non-decreasing in price preference
/// along the walk, and fills at one price consume that level's queue oldest
/// first.
pub proof fn lemma_price_time_priority(levels: Seq<LevelView>, limit: u32, ascending: bool, qty: u32)
    requires
        sorted_levels(levels),
        levels_positive(levels),
    ensures
        ({
            let w = walk_match(levels, limit, ascending, qty);
            &&& forall|k1: int, k2: int|
                0 <= k1 < k2 < w.0.len() ==> (if ascending {
                    (#[trigger] w.0[k1]).price <= (#[trigger] w.0[k2]).price
                } else {
                    w.0[k1].price >= w.0[k2].price
                })
            &&& forall|k1: int, k2: int|
                0 <= k1 < k2 < w.0.len() && (#[trigger] w.0[k1]).price == (#[trigger] w.0[
                k2]).price ==> fills_in_queue_order(levels, w.0[k1], w.0[k2])
        }),
    decreases levels.len(),
{
    let w = walk_match(levels, limit, ascending, qty);
    lemma_walk_basic(levels, limit, ascending, qty);
    if qty == 0 || levels.len() == 0 {
    } else {
        let li: int = if ascending {
            0
        } else {
            levels.len() - 1
        };
        let lv = levels[li];
        if !price_acceptable(ascending, lv.price, limit) {
        } else {
            let lm = level_match(lv.price, lv.orders, qty);
            lemma_level_match_basic(lv.price, lv.orders, qty);
            lemma_level_match_fill_prices(lv.price, lv.orders, qty);
            let rest = if ascending {
                levels.subrange(1, levels.len() as int)
            } else {
                levels.subrange(0, levels.len() - 1)
            };
            let off: int = if ascending {
                1
            } else {
                0
            };
            assert(forall|l: int| 0 <= l < rest.len() ==> rest[l] == levels[l + off]);
            assert(sorted_levels(rest));
            assert(levels_positive(rest)) by {
                assert forall|l: int, j: int|
                    0 <= l < rest.len() && 0 <= j < rest[l].orders.len() implies rest[l].orders[
                    j].quantity > 0 by {
                    assert(rest[l] == levels[l + off]);
                }
            }
            if lm.2.len() == 0 {
                lemma_price_time_priority(rest, limit, ascending, lm.1);
                lemma_walk_fill_prices(rest, limit, ascending, lm.1);
                let rec = walk_match(rest, limit, ascending, lm.1);
                assert(w.0 == lm.0 + rec.0);
                assert forall|k1: int, k2: int|
                    0 <= k1 < k2 < w.0.len() && (#[trigger] w.0[k1]).price == (#[trigger] w.0[
                    k2]).price implies fills_in_queue_order(levels, w.0[k1], w.0[k2]) by {
                    if k2 < lm.0.len() {
                        assert(w.0[k1] == lm.0[k1] && w.0[k2] == lm.0[k2]);
                        assert(lm.0[k1].resting_id == lv.orders[k1].id);
                        assert(lm.0[k2].resting_id == lv.orders[k2].id);
                        assert(levels[li].price == w.0[k1].price);
                        assert(fills_in_queue_order(levels, w.0[k1], w.0[k2]));
                    } else if k1 >= lm.0.len() {
                        assert(w.0[k1] == rec.0[k1 - lm.0.len()] && w.0[k2] == rec.0[k2
                            - lm.0.len()]);
                        assert(fills_in_queue_order(rest, w.0[k1], w.0[k2]));
                        let (l, i1, i2) = choose|l: int, i1: int, i2: int|
                            0 <= l < rest.len() && 0 <= i1 < i2 < rest[l].orders.len()
                                && rest[l].price == w.0[k1].price && (#[trigger] rest[l].orders[
                            i1]).id == w.0[k1].resting_id && (#[trigger] rest[l].orders[i2]).id
                                == w.0[k2].resting_id;
                        assert(levels[l + off] == rest[l]);
                        assert(fills_in_queue_order(levels, w.0[k1], w.0[k2]));
                    } else {
                        // Fills of different levels never share a price.
                        assert(w.0[k1] == lm.0[k1]);
                        assert(w.0[k1].price == lv.price);
                        let kr = k2 - lm.0.len();
                        assert(w.0[k2] == rec.0[kr]);
                        assert(level_price_in(rest, rec.0[kr].price));
                        let i0 = choose|i0: int|
                            0 <= i0 < rest.len() && rest[i0].price == rec.0[kr].price;
                        assert(rest[i0] == levels[i0 + off]);
                        if ascending {
                            assert(levels[0].price < levels[i0 + 1].price);
                        } else {
                            assert(levels[i0].price < levels[levels.len() - 1].price);
                        }
                        assert(false);
                    }
                }
            } else {
                assert(w.0 == lm.0);
                assert forall|k1: int, k2: int|
                    0 <= k1 < k2 < w.0.len() && (#[trigger] w.0[k1]).price == (#[trigger] w.0[
                    k2]).price implies fills_in_queue_order(levels, w.0[k1], w.0[k2]) by {
                    assert(lm.0[k1].resting_id == lv.orders[k1].id);
                    assert(lm.0[k2].resting_id == lv.orders[k2].id);
                    assert(levels[li].price == w.0[k1].price);
                    assert(fills_in_queue_order(levels, w.0[k1], w.0[k2]));
                }
            }
        }
    }
}

/// Whether the index maps this id on this side.
pub open spec fn id_covered(s: Seq<(u128, OrderType, OrderKey)>, id: u128, side: OrderType) -> bool {
    exists|k: int| 0 <= k < s.len() && (#[trigger] s[k]).0 == id && s[k].1 == side
}

/// Appending a fill extends the consumed-id set by its id exactly when it
/// was a full fill.
pub proof fn lemma_consumed_push(parts: Seq<FillPart>, f: FillPart)
    ensures
        full_fill_ids(parts.push(f)) == (if f.full {
            full_fill_ids(parts).insert(f.resting_id)
        } else {
            full_fill_ids(parts)
        }),
        forall|id: u128|
            consumed_by(parts.push(f), id) <==> (consumed_by(parts, id) || (f.full
                && f.resting_id == id)),
{
    let t = parts.push(f);
    assert forall|id: u128|
        consumed_by(t, id) <==> (consumed_by(parts, id) || (f.full && f.resting_id == id)) by {
        if consumed_by(t, id) {
            let k = choose|k: int|
                0 <= k < t.len() && t[k].full && (#[trigger] t[k]).resting_id == id;
            if k < parts.len() {
                assert(parts[k] == t[k]);
                assert(consumed_by(parts, id));
            } else {
                assert(t[k] == f);
            }
        }
        if consumed_by(parts, id) {
            let k = choose|k: int|
                0 <= k < parts.len() && parts[k].full && (#[trigger] parts[k]).resting_id == id;
            assert(t[k] == parts[k]);
            assert(consumed_by(t, id));
        }
        if f.full && f.resting_id == id {
            assert(t[parts.len() as int] == f);
            assert(consumed_by(t, id));
        }
    }
    if f.full {
        assert(full_fill_ids(t) =~= full_fill_ids(parts).insert(f.resting_id));
    } else {
        assert(full_fill_ids(t) =~= full_fill_ids(parts));
    }
}

/// Appending an id to the tombstone list adds exactly that id to the set.
pub proof fn lemma_tomb_push(tombs: Seq<u128>, id: u128)
    ensures
        tomb_ids(tombs.push(id)) == tomb_ids(tombs).insert(id),
{
    let t = tombs.push(id);
    assert forall|x: u128| t.contains(x) <==> (tombs.contains(x) || x == id) by {
        if t.contains(x) {
            let k = choose|k: int| 0 <= k < t.len() && t[k] == x;
            if k < tombs.len() {
                assert(tombs[k] == x);
            }
        }
        if tombs.contains(x) {
            let k = choose|k: int| 0 <= k < tombs.len() && tombs[k] == x;
            assert(t[k] == x);
        }
        assert(t[tombs.len() as int] == id);
    }
    assert(tomb_ids(t) =~= tomb_ids(tombs).insert(id));
}

/// A fill trace never trades negative quantity.
pub proof fn lemma_sum_fill_nonneg(fills: Seq<FillPart>)
    ensures
        sum_fill_qty(fills) >= 0,
    decreases fills.len(),
{
    if fills.len() > 0 {
        lemma_sum_fill_nonneg(fills.subrange(1, fills.len() as int));
    }
}

/// Appending an index entry adds exactly its id to the mapped set.
pub proof fn lemma_index_push(s: Seq<(u128, OrderType, OrderKey)>, e: (u128, OrderType, OrderKey))
    ensures
        index_ids(s.push(e)) == index_ids(s).insert(e.0),
{
    let t = s.push(e);
    assert forall|x: u128| index_ids(t).contains(x) <==> (index_ids(s).contains(x) || x
        == e.0) by {
        if index_ids(t).contains(x) {
            let k = choose|k: int| 0 <= k < t.len() && (#[trigger] t[k]).0 == x;
            if k < s.len() {
                assert(s[k].0 == x);
            }
        }
        if index_ids(s).contains(x) {
            let k = choose|k: int| 0 <= k < s.len() && (#[trigger] s[k]).0 == x;
            assert(t[k].0 == x);
        }
        assert(t[s.len() as int].0 == e.0);
    }
    assert(index_ids(t) =~= index_ids(s).insert(e.0));
}

/// What resting a new order does to a ladder: every order is either an old
/// one or the new one, the new one is present, prices stay sorted and gain
/// at most the new price, and distinctness and positivity carry over.
pub proof fn lemma_spec_insert_shape(levels: Seq<LevelView>, id: u128, price: u32, qty: u32)
    requires
        sorted_levels(levels),
    ensures
        ({
            let r = spec_insert_level(levels, id, price, qty);
            &&& forall|l: int, j: int|
                0 <= l < r.len() && 0 <= j < r[l].orders.len() ==> (exists|l0: int, j0: int|
                    0 <= l0 < levels.len() && 0 <= j0 < levels[l0].orders.len()
                        && #[trigger] r[l].orders[j] == levels[l0].orders[j0]) || r[l].orders[j]
                    == (OrderView { id, quantity: qty })
            &&& order_id_in_levels(r, id)
            &&& forall|l: int|
                0 <= l < r.len() ==> (#[trigger] r[l]).price == price || level_price_in(
                    levels,
                    r[l].price,
                )
            &&& (ids_distinct(levels) && !order_id_in_levels(levels, id)) ==> ids_distinct(r)
            &&& (levels_positive(levels) && qty > 0) ==> levels_positive(r)
        }),
{
    let r = spec_insert_level(levels, id, price, qty);
    let newo = OrderView { id, quantity: qty };
    if has_price(levels, price) {
        let ki = index_of_price(levels, price);
        assert(0 <= ki < levels.len() && levels[ki].price == price);
        assert(r == levels.update(
            ki,
            LevelView { price, orders: levels[ki].orders.push(newo) },
        ));
        assert forall|l: int, j: int|
            0 <= l < r.len() && 0 <= j < r[l].orders.len() implies (exists|l0: int, j0: int|
            0 <= l0 < levels.len() && 0 <= j0 < levels[l0].orders.len()
                && #[trigger] r[l].orders[j] == levels[l0].orders[j0]) || r[l].orders[j]
            == newo by {
            if l != ki {
                assert(r[l] == levels[l]);
                assert(r[l].orders[j] == levels[l].orders[j]);
            } else if j < levels[ki].orders.len() {
                assert(r[l].orders[j] == levels[ki].orders[j]);
            } else {
                assert(r[l].orders[j] == newo);
            }
        }
        assert(r[ki].orders[levels[ki].orders.len() as int] == newo);
        assert(order_id_in_levels(r, id));
        assert forall|l: int| 0 <= l < r.len() implies (#[trigger] r[l]).price == price
            || level_price_in(levels, r[l].price) by {
            if l != ki {
                assert(r[l] == levels[l]);
                assert(levels[l].price == r[l].price);
            }
        }
        if ids_distinct(levels) && !order_id_in_levels(levels, id) {
            assert forall|l1: int, j1: int, l2: int, j2: int|
                0 <= l1 < r.len() && 0 <= j1 < r[l1].orders.len() && 0 <= l2 < r.len() && 0 <= j2
                    < r[l2].orders.len() && (l1 != l2 || j1 != j2) implies r[l1].orders[j1].id
                != r[l2].orders[j2].id by {
                let n = levels[ki].orders.len() as int;
                if (l1 == ki && j1 == n) && !(l2 == ki && j2 == n) {
                    assert(r[l1].orders[j1] == newo);
                    if l2 != ki {
                        assert(r[l2].orders[j2] == levels[l2].orders[j2]);
                        assert(levels[l2].orders[j2].id == id ==> order_id_in_levels(levels, id));
                    } else {
                        assert(r[l2].orders[j2] == levels[ki].orders[j2]);
                        assert(levels[ki].orders[j2].id == id ==> order_id_in_levels(levels, id));
                    }
                } else if !(l1 == ki && j1 == n) && (l2 == ki && j2 == n) {
                    assert(r[l2].orders[j2] == newo);
                    if l1 != ki {
                        assert(r[l1].orders[j1] == levels[l1].orders[j1]);
                        assert(levels[l1].orders[j1].id == id ==> order_id_in_levels(levels, id));
                    } else {
                        assert(r[l1].orders[j1] == levels[ki].orders[j1]);
                        assert(levels[ki].orders[j1].id == id ==> order_id_in_levels(levels, id));
                    }
                } else if !(l1 == ki && j1 == n) && !(l2 == ki && j2 == n) {
                    let a1: int = j1;
                    let a2: int = j2;
                    assert(r[l1].orders[j1] == levels[l1].orders[a1]);
                    assert(r[l2].orders[j2] == levels[l2].orders[a2]);
                }
            }
        }
        if levels_positive(levels) && qty > 0 {
            assert forall|l: int, j: int|
                0 <= l < r.len() && 0 <= j < r[l].orders.len() implies r[l].orders[j].quantity
                > 0 by {
                if l != ki {
                    assert(r[l].orders[j] == levels[l].orders[j]);
                } else if j < levels[ki].orders.len() {
                    assert(r[l].orders[j] == levels[ki].orders[j]);
                } else {
                    assert(r[l].orders[j] == newo);
                }
            }
        }
    } else {
        lemma_lower_bound(levels, price);
        let lb = lower_bound(levels, price);
        assert(r == levels.insert(lb, LevelView { price, orders: seq![newo] }));
        assert(r[lb].orders[0] == newo);
        assert(order_id_in_levels(r, id));
        assert forall|l: int, j: int|
            0 <= l < r.len() && 0 <= j < r[l].orders.len() implies (exists|l0: int, j0: int|
            0 <= l0 < levels.len() && 0 <= j0 < levels[l0].orders.len()
                && #[trigger] r[l].orders[j] == levels[l0].orders[j0]) || r[l].orders[j]
            == newo by {
            if l < lb {
                assert(r[l] == levels[l]);
                assert(r[l].orders[j] == levels[l].orders[j]);
            } else if l > lb {
                assert(r[l] == levels[l - 1]);
                assert(r[l].orders[j] == levels[l - 1].orders[j]);
            } else {
                assert(r[l].orders[j] == newo);
            }
        }
        assert forall|l: int| 0 <= l < r.len() implies (#[trigger] r[l]).price == price
            || level_price_in(levels, r[l].price) by {
            if l < lb {
                assert(r[l] == levels[l]);
                assert(levels[l].price == r[l].price);
            } else if l > lb {
                assert(r[l] == levels[l - 1]);
                assert(levels[l - 1].price == r[l].price);
            }
        }
        if ids_distinct(levels) && !order_id_in_levels(levels, id) {
            assert forall|l1: int, j1: int, l2: int, j2: int|
                0 <= l1 < r.len() && 0 <= j1 < r[l1].orders.len() && 0 <= l2 < r.len() && 0 <= j2
                    < r[l2].orders.len() && (l1 != l2 || j1 != j2) implies r[l1].orders[j1].id
                != r[l2].orders[j2].id by {
                if l1 == lb && l2 == lb {
                } else if l1 == lb {
                    let a2: int = if l2 < lb { l2 } else { l2 - 1 };
                    assert(r[l2].orders[j2] == levels[a2].orders[j2]);
                    assert(levels[a2].orders[j2].id == id ==> order_id_in_levels(levels, id));
                } else if l2 == lb {
                    let a1: int = if l1 < lb { l1 } else { l1 - 1 };
                    assert(r[l1].orders[j1] == levels[a1].orders[j1]);
                    assert(levels[a1].orders[j1].id == id ==> order_id_in_levels(levels, id));
                } else {
                    let a1: int = if l1 < lb { l1 } else { l1 - 1 };
                    let a2: int = if l2 < lb { l2 } else { l2 - 1 };
                    assert(r[l1].orders[j1] == levels[a1].orders[j1]);
                    assert(r[l2].orders[j2] == levels[a2].orders[j2]);
                    assert(a1 != a2 || j1 != j2);
                }
            }
        }
        if levels_positive(levels) && qty > 0 {
            assert forall|l: int, j: int|
                0 <= l < r.len() && 0 <= j < r[l].orders.len() implies r[l].orders[j].quantity
                > 0 by {
                if l < lb {
                    assert(r[l].orders[j] == levels[l].orders[j]);
                } else if l > lb {
                    assert(r[l].orders[j] == levels[l - 1].orders[j]);
                } else {
                    assert(r[l].orders[j] == newo);
                }
            }
        }
    }
}

/// No id is mapped twice by the index.
pub open spec fn index_keys_distinct(s: Seq<(u128, OrderType, OrderKey)>) -> bool {
    forall|k1: int, k2: int| 0 <= k1 < k2 < s.len() ==> s[k1].0 != s[k2].0
}

/// The per-book sequence in an id's low 64 bits.
pub open spec fn id_salt(id: u128) -> u128 {
    id % ID_SALT_MODULUS
}

/// The ladder a resting order of this side lives on, and the resting order
/// the matching walk inserts when a remainder rests.
pub open spec fn spec_insert_level(levels: Seq<LevelView>, id: u128, price: u32, qty: u32) -> Seq<
    LevelView,
> {
    if has_price(levels, price) {
        levels.update(
            index_of_price(levels, price),
            LevelView {
                price,
                orders: levels[index_of_price(levels, price)].orders.push(
                    OrderView { id, quantity: qty },
                ),
            },
        )
    } else {
        levels.insert(
            lower_bound(levels, price),
            LevelView { price, orders: seq![OrderView { id, quantity: qty }] },
        )
    }
}

/// The book: one ladder per side, the id index used by cancel, the
/// tombstone set of ids that have left, the fill sequence counter, and the
/// id-minting counter.
pub struct OrderBook {
    bid_tree: PriceTree,
    ask_tree: PriceTree,
    order_id_map: Vec<(u128, OrderType, OrderKey)>,
    order_removed_set: Vec<u128>,
    next_fill_seq: u64,
    next_salt: u64,
}

impl OrderBook {
    /// Bid levels in ascending price order.
    pub closed spec fn bids(&self) -> Seq<LevelView> {
        self.bid_tree.levels()
    }

    /// Ask levels in ascending price order.
    pub closed spec fn asks(&self) -> Seq<LevelView> {
        self.ask_tree.levels()
    }

    /// The ids of the orders currently resting, as the index knows them.
    pub closed spec fn index_dom(&self) -> Set<u128> {
        index_ids(self.order_id_map@)
    }

    /// The ids known to have left the book.
    pub closed spec fn tombstones(&self) -> Set<u128> {
        tomb_ids(self.order_removed_set@)
    }

    /// The sequence number the next fill will carry.
    pub closed spec fn fill_seq(&self) -> u64 {
        self.next_fill_seq
    }

    /// How many ids this book has minted.
    pub closed spec fn minted(&self) -> u64 {
        self.next_salt
    }

    /// The ladder an order of this side rests on.
    pub open spec fn own_levels(&self, order_type: OrderType) -> Seq<LevelView> {
        if order_type == OrderType::Bid {
            self.bids()
        } else {
            self.asks()
        }
    }

    /// The ladder an order of this side matches against.
    pub open spec fn opposite_levels(&self, order_type: OrderType) -> Seq<LevelView> {
        if order_type == OrderType::Bid {
            self.asks()
        } else {
            self.bids()
        }
    }

    /// Every index entry points, through a live handle on its side's
    /// ladder, at a resting order with that entry's id; no id is mapped
    /// twice; and every resting order is in the index under its side.
    spec fn index_wf(&self) -> bool {
        &&& forall|k: int|
            0 <= k < self.order_id_map@.len() ==> {
                let e = #[trigger] self.order_id_map@[k];
                &&& (e.1 == OrderType::Bid ==> self.bid_tree.key_valid(e.2)
                    && self.bid_tree.order_at(e.2).id == e.0)
                &&& (e.1 == OrderType::Ask ==> self.ask_tree.key_valid(e.2)
                    && self.ask_tree.order_at(e.2).id == e.0)
            }
        &&& index_keys_distinct(self.order_id_map@)
        &&& forall|l: int, j: int|
            0 <= l < self.bids().len() && 0 <= j < self.bids()[l].orders.len() ==> id_covered(
                self.order_id_map@,
                (#[trigger] self.bids()[l].orders[j]).id,
                OrderType::Bid,
            )
        &&& forall|l: int, j: int|
            0 <= l < self.asks().len() && 0 <= j < self.asks()[l].orders.len() ==> id_covered(
                self.order_id_map@,
                (#[trigger] self.asks()[l].orders[j]).id,
                OrderType::Ask,
            )
    }

    /// Every id the book has ever handed out carries a salt below the
    /// minting counter, so the next minted id is fresh.
    spec fn salt_wf(&self) -> bool {
        &&& forall|k: int|
            0 <= k < self.order_id_map@.len() ==> id_salt((#[trigger] self.order_id_map@[k]).0)
                < self.next_salt as u128
        &&& forall|k: int|
            0 <= k < self.order_removed_set@.len() ==> id_salt(
                #[trigger] self.order_removed_set@[k],
            ) < self.next_salt as u128
    }

    /// The book is never crossed: every bid price is below every ask price.
    pub closed spec fn uncrossed(&self) -> bool {
        forall|i: int, j: int|
            0 <= i < self.bids().len() && 0 <= j < self.asks().len()
                ==> (#[trigger] self.bids()[i]).price < (#[trigger] self.asks()[j]).price
    }

    pub closed spec fn wf(&self) -> bool {
        &&& self.bid_tree.wf()
        &&& self.ask_tree.wf()
        &&& self.index_wf()
        &&& self.salt_wf()
        &&& ids_distinct(self.bids())
        &&& ids_distinct(self.asks())
        &&& ids_disjoint(self.bids(), self.asks())
        &&& levels_positive(self.bids())
        &&& levels_positive(self.asks())
        &&& forall|id: u128|
            #[trigger] self.tombstones().contains(id) ==> !self.index_dom().contains(id)
        &&& self.uncrossed()
    }

    pub fn new() -> (r: OrderBook)
        ensures
            r.wf(),
            r.bids() == Seq::<LevelView>::empty(),
            r.asks() == Seq::<LevelView>::empty(),
            r.index_dom() == Set::<u128>::empty(),
            r.tombstones() == Set::<u128>::empty(),
            r.fill_seq() == 0,
            r.minted() == 0,
    {
        let r = OrderBook {
            bid_tree: PriceTree::new(),
            ask_tree: PriceTree::new(),
            order_id_map: Vec::new(),
            order_removed_set: Vec::new(),
            next_fill_seq: 0,
            next_salt: 0,
        };
        proof {
            assert(r.index_dom() =~= Set::<u128>::empty());
            assert(r.tombstones() =~= Set::<u128>::empty());
        }
        r
    }

    /// Looks an id up in the index.
    #[verifier::loop_isolation(false)]
    fn index_lookup(&self, id: u128) -> (r: Option<(OrderType, OrderKey)>)
        ensures
            match r {
                Some(e) => exists|k: int|
                    0 <= k < self.order_id_map@.len() && #[trigger] self.order_id_map@[k] == (
                    id,
                    e.0,
                    e.1,
                ),
                None => !self.index_dom().contains(id),
            },
    {
        let mut k: usize = 0;
        while k < self.order_id_map.len() && self.order_id_map[k].0 != id
            invariant
                k <= self.order_id_map@.len(),
                forall|j: int| 0 <= j < k ==> (#[trigger] self.order_id_map@[j]).0 != id,
            decreases self.order_id_map@.len() - k,
        {
            k += 1;
        }
        if k < self.order_id_map.len() {
            let e = self.order_id_map[k];
            Some((e.1, e.2))
        } else {
            proof {
                assert(!self.index_dom().contains(id)) by {
                    if self.index_dom().contains(id) {
                        let j = choose|j: int|
                            0 <= j < self.order_id_map@.len() && (#[trigger] self.order_id_map@[
                            j]).0 == id;
                    }
                }
            }
            None
        }
    }

    /// Whether an id is in the tombstone set.
    #[verifier::loop_isolation(false)]
    fn tomb_contains(&self, id: u128) -> (r: bool)
        ensures
            r == self.tombstones().contains(id),
    {
        let mut k: usize = 0;
        while k < self.order_removed_set.len() && self.order_removed_set[k] != id
            invariant
                k <= self.order_removed_set@.len(),
                forall|j: int| 0 <= j < k ==> self.order_removed_set@[j] != id,
            decreases self.order_removed_set@.len() - k,
        {
            k += 1;
        }
        proof {
            if k < self.order_removed_set@.len() {
                assert(self.order_removed_set@.contains(id));
            } else if self.order_removed_set@.contains(id) {
                let j = choose|j: int|
                    0 <= j < self.order_removed_set@.len() && self.order_removed_set@[j] == id;
            }
        }
        k < self.order_removed_set.len()
    }

    /// Removes the entry mapping this id, if one exists.
    #[verifier::loop_isolation(false)]
    fn index_remove(map: &mut Vec<(u128, OrderType, OrderKey)>, id: u128)
        requires
            index_keys_distinct(old(map)@),
        ensures
            index_keys_distinct(final(map)@),
            index_ids(final(map)@) == index_ids(old(map)@).remove(id),
            forall|k: int|
                0 <= k < final(map)@.len() ==> old(map)@.contains(#[trigger] final(map)@[k]),
            forall|e: (u128, OrderType, OrderKey)|
                old(map)@.contains(e) && e.0 != id ==> final(map)@.contains(e),
    {
        let mut k: usize = 0;
        while k < map.len() && map[k].0 != id
            invariant
                k <= map@.len(),
                map@ == old(map)@,
                forall|j: int| 0 <= j < k ==> (#[trigger] map@[j]).0 != id,
            decreases map@.len() - k,
        {
            k += 1;
        }
        if k < map.len() {
            map.swap_remove(k);
            proof {
                let m0 = old(map)@;
                let m1 = map@;
                assert(m1 =~= m0.update(k as int, m0[m0.len() - 1]).drop_last());
                assert forall|j1: int, j2: int| 0 <= j1 < j2 < m1.len() implies m1[j1].0
                    != m1[j2].0 by {
                    let a1: int = if j1 == k { m0.len() - 1 } else { j1 };
                    let a2: int = if j2 == k { m0.len() - 1 } else { j2 };
                    assert(m1[j1] == m0[a1] && m1[j2] == m0[a2]);
                }
                assert forall|j: int| 0 <= j < m1.len() implies m0.contains(#[trigger] m1[j]) by {
                    let a: int = if j == k { m0.len() - 1 } else { j };
                    assert(m1[j] == m0[a]);
                }
                assert forall|e: (u128, OrderType, OrderKey)| m0.contains(e) && e.0 != id
                    implies m1.contains(e) by {
                    let j = choose|j: int| 0 <= j < m0.len() && m0[j] == e;
                    assert(j != k);
                    if j == m0.len() - 1 {
                        assert(m0.len() - 1 != k);
                        assert(m1[k as int] == e);
                    } else {
                        assert(m1[j] == e);
                    }
                }
                assert(index_ids(m1) =~= index_ids(m0).remove(id)) by {
                    assert forall|x: u128| index_ids(m1).contains(x) implies index_ids(
                        m0,
                    ).remove(id).contains(x) by {
                        let j = choose|j: int| 0 <= j < m1.len() && (#[trigger] m1[j]).0 == x;
                        let a: int = if j == k { m0.len() - 1 } else { j };
                        assert(m0[a].0 == x);
                        assert(x != id) by {
                            if j == k {
                                assert(m0[k as int].0 == id);
                                if k as int == m0.len() - 1 {
                                } else {
                                    assert(m0[m0.len() - 1].0 != id);
                                }
                            }
                        }
                    }
                    assert forall|x: u128| index_ids(m0).remove(id).contains(x)
                        implies index_ids(m1).contains(x) by {
                        let j = choose|j: int| 0 <= j < m0.len() && (#[trigger] m0[j]).0 == x;
                        assert(m0.contains(m0[j]));
                        assert(m1.contains(m0[j]));
                        let j1 = choose|j1: int| 0 <= j1 < m1.len() && m1[j1] == m0[j];
                    }
                }
            }
        } else {
            proof {
                assert(!index_ids(map@).contains(id)) by {
                    if index_ids(map@).contains(id) {
                        let j = choose|j: int|
                            0 <= j < map@.len() && (#[trigger] map@[j]).0 == id;
                    }
                }
                assert(index_ids(map@) =~= index_ids(old(map)@).remove(id));
                assert forall|j: int| 0 <= j < map@.len() implies old(map)@.contains(
                    #[trigger] map@[j],
                ) by {}
            }
        }
    }

    /// Mints an order id whose upper bits come from a fresh random uuid and
    /// whose low 64 bits carry the book's minting counter, so it differs
    /// from every id this book has handed out.
    fn mint_id(&self) -> (id: u128)
        requires
            self.wf(),
        ensures
            !self.index_dom().contains(id),
            !self.tombstones().contains(id),
            id_salt(id) == self.next_salt as u128,
    {
        let r = random_order_id();
        let high: u64 = #[verifier::truncate] ((r >> 64u128) as u64);
        let id: u128 = (high as u128) * ID_SALT_MODULUS + (self.next_salt as u128);
        proof {
            assert((high as u128) * ID_SALT_MODULUS <= 0xffff_ffff_ffff_ffffu128
                * ID_SALT_MODULUS);
            lemma_mod_multiples_vanish(high as int, self.next_salt as int, ID_SALT_MODULUS as int);
            lemma_small_mod(self.next_salt as nat, ID_SALT_MODULUS as nat);
            assert(id_salt(id) == self.next_salt as u128);
            assert(!self.index_dom().contains(id)) by {
                if self.index_dom().contains(id) {
                    let k = choose|k: int|
                        0 <= k < self.order_id_map@.len() && (#[trigger] self.order_id_map@[k]).0
                            == id;
                    assert(id_salt(self.order_id_map@[k].0) < self.next_salt as u128);
                }
            }
            assert(!self.tombstones().contains(id)) by {
                if self.tombstones().contains(id) {
                    let k = choose|k: int|
                        0 <= k < self.order_removed_set@.len() && self.order_removed_set@[k] == id;
                    assert(id_salt(self.order_removed_set@[k]) < self.next_salt as u128);
                }
            }
        }
        id
    }

    /// Runs the matching walk against one ladder: consumes resting orders
    /// at acceptable prices, best level first and oldest order first,
    /// removing fully filled orders from the ladder and the index and
    /// tombstoning their ids, reducing at most one order's quantity in
    /// place, and emitting one fill per trade in walk order.
    #[verifier::loop_isolation(false)]
    #[verifier::rlimit(100)]
    fn match_loop(
        tree: &mut PriceTree,
        map: &mut Vec<(u128, OrderType, OrderKey)>,
        tombs: &mut Vec<u128>,
        fill_seq: &mut u64,
        limit: u32,
        ascending: bool,
        qty: u32,
        order_id: u128,
        order_type: OrderType,
    ) -> (out: (Vec<Fill>, u32))
        requires
            old(tree).wf(),
            index_keys_distinct(old(map)@),
            *old(fill_seq) + qty <= u64::MAX,
            levels_positive(old(tree).levels()),
            ids_distinct(old(tree).levels()),
        ensures
            final(tree).wf(),
            ({
                let w = walk_match(old(tree).levels(), limit, ascending, qty);
                &&& final(tree).levels() == w.2
                &&& out.1 == w.1
                &&& out.0@.len() == w.0.len()
                &&& forall|k: int|
                    0 <= k < w.0.len() ==> out.0@[k] == (Fill {
                        sequence: (*old(fill_seq) + k) as u64,
                        aggressor_side: order_type,
                        aggressor_id: order_id,
                        resting_id: w.0[k].resting_id,
                        price: w.0[k].price,
                        quantity: w.0[k].quantity,
                    })
                &&& *final(fill_seq) == *old(fill_seq) + w.0.len()
                &&& index_keys_distinct(final(map)@)
                &&& index_ids(final(map)@) == index_ids(old(map)@).difference(full_fill_ids(w.0))
                &&& forall|k: int|
                    0 <= k < final(map)@.len() ==> old(map)@.contains(#[trigger] final(map)@[k])
                &&& forall|e: (u128, OrderType, OrderKey)|
                    old(map)@.contains(e) && !full_fill_ids(w.0).contains(e.0)
                        ==> final(map)@.contains(e)
                &&& tomb_ids(final(tombs)@) == tomb_ids(old(tombs)@).union(full_fill_ids(w.0))
                &&& forall|k: int|
                    0 <= k < final(tombs)@.len() ==> old(tombs)@.contains(
                        #[trigger] final(tombs)@[k],
                    ) || consumed_by(w.0, final(tombs)@[k])
                &&& forall|k2: OrderKey|
                    #[trigger] old(tree).key_valid(k2) && !full_fill_ids(w.0).contains(
                        old(tree).order_at(k2).id,
                    ) ==> final(tree).key_valid(k2) && final(tree).order_at(k2).id
                        == old(tree).order_at(k2).id
                &&& forall|k2: OrderKey|
                    #[trigger] final(tree).key_valid(k2) ==> old(tree).key_valid(k2)
            }),
    {
        let ghost t0 = *old(tree);
        let ghost m0 = old(map)@;
        let ghost tb0 = old(tombs)@;
        let ghost s0 = *old(fill_seq);
        let ghost w = walk_match(t0.levels(), limit, ascending, qty);
        let mut fills: Vec<Fill> = Vec::new();
        let ghost mut parts: Seq<FillPart> = Seq::<FillPart>::empty();
        let mut remaining: u32 = qty;
        let mut done: bool = false;
        proof {
            assert(w.0 =~= parts + walk_match(tree.levels(), limit, ascending, remaining).0);
        }
        while !done && remaining > 0
            invariant
                tree.wf(),
                levels_positive(tree.levels()),
                remaining <= qty,
                parts.len() + remaining <= qty,
                w == walk_match(t0.levels(), limit, ascending, qty),
                w.0 == parts + walk_match(tree.levels(), limit, ascending, remaining).0,
                w.1 == walk_match(tree.levels(), limit, ascending, remaining).1,
                w.2 == walk_match(tree.levels(), limit, ascending, remaining).2,
                done ==> (tree.levels().len() == 0 || !price_acceptable(
                    ascending,
                    tree.levels()[if ascending {
                        0int
                    } else {
                        tree.levels().len() - 1
                    }].price,
                    limit,
                )),
                fills@.len() == parts.len(),
                forall|k: int|
                    0 <= k < parts.len() ==> fills@[k] == (Fill {
                        sequence: (s0 + k) as u64,
                        aggressor_side: order_type,
                        aggressor_id: order_id,
                        resting_id: parts[k].resting_id,
                        price: parts[k].price,
                        quantity: parts[k].quantity,
                    }),
                *fill_seq == s0 + parts.len(),
                s0 + qty <= u64::MAX,
                index_keys_distinct(map@),
                index_ids(map@) == index_ids(m0).difference(full_fill_ids(parts)),
                forall|k: int| 0 <= k < map@.len() ==> m0.contains(#[trigger] map@[k]),
                forall|e: (u128, OrderType, OrderKey)|
                    m0.contains(e) && !full_fill_ids(parts).contains(e.0) ==> map@.contains(e),
                tomb_ids(tombs@) == tomb_ids(tb0).union(full_fill_ids(parts)),
                forall|k: int|
                    0 <= k < tombs@.len() ==> tb0.contains(#[trigger] tombs@[k]) || consumed_by(
                        parts,
                        tombs@[k],
                    ),
                forall|k2: OrderKey|
                    #[trigger] t0.key_valid(k2) && !full_fill_ids(parts).contains(
                        t0.order_at(k2).id,
                    ) ==> tree.key_valid(k2) && tree.order_at(k2).id == t0.order_at(k2).id,
                forall|k2: OrderKey|
                    #[trigger] tree.key_valid(k2) ==> t0.key_valid(k2) && tree.order_at(k2).id
                        == t0.order_at(k2).id,
            decreases 2 * remaining + (if done {
                0int
            } else {
                1int
            }),
        {
            let front = tree.front_at_best(ascending);
            match front {
                None => {
                    done = true;
                }
                Some((key, resting)) => {
                    let ghost cur = tree.levels();
                    let ghost li: int = if ascending {
                        0
                    } else {
                        cur.len() - 1
                    };
                    let acceptable: bool = if ascending {
                        resting.price <= limit
                    } else {
                        resting.price >= limit
                    };
                    if !acceptable {
                        done = true;
                        proof {
                            assert(resting.price == cur[li].price);
                        }
                    } else if resting.quantity <= remaining {
                        // Full fill: the resting order is consumed.
                        proof {
                            assert(cur.len() > 0);
                            tree.lemma_wf_levels();
                            assert(cur[li].orders.len() > 0);
                            assert(resting.ov() == cur[li].orders[0]);
                            assert(cur[li].orders[0].quantity == resting.quantity);
                            assert(resting.price == cur[li].price);
                            assert(price_acceptable(ascending, cur[li].price, limit));
                            lemma_walk_step_full(cur, limit, ascending, remaining);
                            assert(tree.order_at(key) == cur[li].orders[0]);
                            assert(tree.order_at(key).id == resting.id);
                            tree.lemma_key_in_range(key);
                        }
                        let ghost pre = *tree;
                        let res = tree.remove_order(&key);
                        proof {
                            assert(res is Ok);
                            let o0 = cur[li].orders[0];
                            let levels2 = if cur[li].orders.len() == 1 {
                                cur.remove(li)
                            } else {
                                cur.update(
                                    li,
                                    LevelView {
                                        price: cur[li].price,
                                        orders: cur[li].orders.remove(0),
                                    },
                                )
                            };
                            assert(tree.levels() == levels2);
                            assert(levels_positive(tree.levels())) by {
                                assert forall|l: int, j: int|
                                    0 <= l < levels2.len() && 0 <= j < levels2[l].orders.len()
                                    implies levels2[l].orders[j].quantity > 0 by {
                                    if cur[li].orders.len() == 1 {
                                        let a: int = if l < li {
                                            l
                                        } else {
                                            l + 1
                                        };
                                        assert(levels2[l] == cur[a]);
                                    } else {
                                        if l != li {
                                            assert(levels2[l] == cur[l]);
                                        } else {
                                            assert(levels2[l].orders[j] == cur[li].orders[j + 1]);
                                        }
                                    }
                                }
                            }
                        }
                        Self::index_remove(map, resting.id);
                        let ghost tbpre = tombs@;
                        tombs.push(resting.id);
                        fills.push(
                            Fill {
                                sequence: *fill_seq,
                                aggressor_side: order_type,
                                aggressor_id: order_id,
                                resting_id: resting.id,
                                price: resting.price,
                                quantity: resting.quantity,
                            },
                        );
                        *fill_seq = *fill_seq + 1;
                        proof {
                            let f0 = FillPart {
                                resting_id: resting.id,
                                price: resting.price,
                                quantity: resting.quantity,
                                full: true,
                            };
                            lemma_consumed_push(parts, f0);
                            let parts2 = parts.push(f0);
                            let rem2 = (remaining - resting.quantity) as u32;
                            let wx = walk_match(cur, limit, ascending, remaining);
                            let wy = walk_match(tree.levels(), limit, ascending, rem2);
                            assert(wx.0 == seq![f0] + wy.0 && wx.1 == wy.1 && wx.2 == wy.2);
                            assert(w.0 =~= parts2 + wy.0) by {
                                assert(w.0 == parts + (seq![f0] + wy.0));
                                assert(parts + (seq![f0] + wy.0) =~= parts2 + wy.0);
                            }
                            assert(index_ids(map@) =~= index_ids(m0).difference(
                                full_fill_ids(parts2),
                            )) by {
                                assert(index_ids(map@) == index_ids(m0).difference(
                                    full_fill_ids(parts),
                                ).remove(resting.id));
                                assert(full_fill_ids(parts2) == full_fill_ids(parts).insert(
                                    resting.id,
                                ));
                            }
                            assert(tomb_ids(tombs@) =~= tomb_ids(tb0).union(
                                full_fill_ids(parts2),
                            )) by {
                                assert(tombs@ == tbpre.push(resting.id));
                                lemma_tomb_push(tbpre, resting.id);
                                assert(tomb_ids(tbpre) == tomb_ids(tb0).union(
                                    full_fill_ids(parts),
                                ));
                            }
                            assert forall|k: int| 0 <= k < tombs@.len() implies tb0.contains(
                                #[trigger] tombs@[k],
                            ) || consumed_by(parts2, tombs@[k]) by {
                                if k < tbpre.len() {
                                    assert(tombs@[k] == tbpre[k]);
                                    if consumed_by(parts, tombs@[k]) {
                                        assert(consumed_by(parts2, tombs@[k]));
                                    }
                                } else {
                                    assert(tombs@[k] == resting.id);
                                    assert(parts2[parts.len() as int] == f0);
                                    assert(consumed_by(parts2, resting.id));
                                }
                            }
                            // Key stability, accumulated.
                            assert forall|k2: OrderKey| #[trigger] t0.key_valid(k2)
                                && !full_fill_ids(parts2).contains(t0.order_at(k2).id)
                                implies tree.key_valid(k2) && tree.order_at(k2).id == t0.order_at(
                                k2,
                            ).id by {
                                assert(!full_fill_ids(parts).contains(t0.order_at(k2).id));
                                assert(pre.key_valid(k2) && pre.order_at(k2).id == t0.order_at(
                                    k2,
                                ).id);
                                assert(k2 != key) by {
                                    if k2 == key {
                                        assert(pre.order_at(key).id == resting.id);
                                    }
                                }
                            }
                            assert forall|k2: OrderKey| #[trigger] tree.key_valid(k2)
                                implies t0.key_valid(k2) && tree.order_at(k2).id == t0.order_at(
                                k2,
                            ).id by {
                                assert(pre.key_valid(k2));
                                assert(k2 != key);
                            }
                            parts = parts2;
                        }
                        remaining = remaining - resting.quantity;
                    } else {
                        // Partial fill: the resting order shrinks in place.
                        proof {
                            assert(cur.len() > 0);
                            tree.lemma_wf_levels();
                            assert(cur[li].orders.len() > 0);
                            assert(resting.ov() == cur[li].orders[0]);
                            assert(cur[li].orders[0].quantity == resting.quantity);
                            assert(resting.price == cur[li].price);
                            assert(price_acceptable(ascending, cur[li].price, limit));
                            lemma_walk_step_partial(cur, limit, ascending, remaining);
                            assert(tree.order_at(key) == cur[li].orders[0]);
                            tree.lemma_key_in_range(key);
                        }
                        let ghost pre = *tree;
                        let newq = resting.quantity - remaining;
                        let res = tree.update_order_quantity(&key, newq);
                        proof {
                            assert(res is Ok);
                            let o0 = cur[li].orders[0];
                            let levels2 = cur.update(
                                li,
                                LevelView {
                                    price: cur[li].price,
                                    orders: cur[li].orders.update(
                                        0,
                                        OrderView { id: o0.id, quantity: newq },
                                    ),
                                },
                            );
                            assert(tree.levels() == levels2);
                            assert(levels_positive(tree.levels())) by {
                                assert forall|l: int, j: int|
                                    0 <= l < levels2.len() && 0 <= j < levels2[l].orders.len()
                                    implies levels2[l].orders[j].quantity > 0 by {
                                    if l != li {
                                        assert(levels2[l] == cur[l]);
                                    } else if j != 0 {
                                        assert(levels2[l].orders[j] == cur[li].orders[j]);
                                    }
                                }
                            }
                        }
                        fills.push(
                            Fill {
                                sequence: *fill_seq,
                                aggressor_side: order_type,
                                aggressor_id: order_id,
                                resting_id: resting.id,
                                price: resting.price,
                                quantity: remaining,
                            },
                        );
                        *fill_seq = *fill_seq + 1;
                        proof {
                            let f0 = FillPart {
                                resting_id: resting.id,
                                price: resting.price,
                                quantity: remaining,
                                full: false,
                            };
                            lemma_consumed_push(parts, f0);
                            let parts2 = parts.push(f0);
                            let wx = walk_match(cur, limit, ascending, remaining);
                            let wy = walk_match(tree.levels(), limit, ascending, 0u32);
                            assert(wx.0 == seq![f0] && wx.1 == 0 && wx.2 == tree.levels());
                            assert(wy.0 =~= Seq::<FillPart>::empty() && wy.1 == 0 && wy.2
                                == tree.levels());
                            assert(w.0 =~= parts2 + wy.0) by {
                                assert(w.0 == parts + seq![f0]);
                                assert(parts + seq![f0] =~= parts2);
                                assert(parts2 =~= parts2 + wy.0);
                            }
                            assert(full_fill_ids(parts2) =~= full_fill_ids(parts));
                            assert forall|k: int| 0 <= k < tombs@.len() implies tb0.contains(
                                #[trigger] tombs@[k],
                            ) || consumed_by(parts2, tombs@[k]) by {
                                if consumed_by(parts, tombs@[k]) {
                                    assert(consumed_by(parts2, tombs@[k]));
                                }
                            }
                            assert forall|k2: OrderKey| #[trigger] t0.key_valid(k2)
                                && !full_fill_ids(parts2).contains(t0.order_at(k2).id)
                                implies tree.key_valid(k2) && tree.order_at(k2).id == t0.order_at(
                                k2,
                            ).id by {
                                assert(pre.key_valid(k2) && pre.order_at(k2).id == t0.order_at(
                                    k2,
                                ).id);
                                if k2 == key {
                                    assert(tree.order_at(key).id == pre.order_at(key).id);
                                }
                            }
                            assert forall|k2: OrderKey| #[trigger] tree.key_valid(k2)
                                implies t0.key_valid(k2) && tree.order_at(k2).id == t0.order_at(
                                k2,
                            ).id by {
                                assert(pre.key_valid(k2));
                                if k2 == key {
                                    assert(tree.order_at(key).id == pre.order_at(key).id);
                                }
                            }
                            parts = parts2;
                        }
                        remaining = 0;
                    }
                }
            }
        }
        proof {
            let wz = walk_match(tree.levels(), limit, ascending, remaining);
            assert(wz.0 =~= Seq::<FillPart>::empty() && wz.1 == remaining && wz.2
                == tree.levels());
            assert(w.0 =~= parts);
            assert(w.1 == remaining);
            assert(w.2 == tree.levels());
        }
        (fills, remaining)
    }

    /// Cancels a resting order by id. An id in the tombstone set is
    /// already gone; an id the book has never seen is unknown; a resting
    /// id is removed from its ladder and the index and tombstoned.
    #[verifier::rlimit(100)]
    pub fn cancel_order(&mut self, order_id: u128) -> (r: Result<(), CancelError>)
        requires
            old(self).wf(),
        ensures
            final(self).wf(),
            final(self).minted() == old(self).minted(),
            final(self).fill_seq() == old(self).fill_seq(),
            forall|id2: u128|
                old(self).tombstones().contains(id2) ==> final(self).tombstones().contains(id2),
            old(self).tombstones().contains(order_id) ==> r == Err::<(), CancelError>(
                CancelError::AlreadyGone,
            ),
            !old(self).tombstones().contains(order_id) && !old(self).index_dom().contains(
                order_id,
            ) ==> r == Err::<(), CancelError>(CancelError::Unknown),
            r is Err ==> final(self).bids() == old(self).bids() && final(self).asks() == old(
                self).asks() && final(self).index_dom() == old(self).index_dom() && final(
                self).tombstones() == old(self).tombstones() && final(self).fill_seq() == old(
                self).fill_seq(),
            !old(self).tombstones().contains(order_id) && old(self).index_dom().contains(order_id)
                ==> r == Ok::<(), CancelError>(()) && final(self).index_dom() == old(
                self).index_dom().remove(order_id) && final(self).tombstones() == old(
                self).tombstones().insert(order_id) && final(self).fill_seq() == old(
                self).fill_seq() && ((exists|l: int, j: int|
                0 <= l < old(self).bids().len() && 0 <= j < old(self).bids()[l].orders.len() && (
                #[trigger] old(self).bids()[l].orders[j]).id == order_id && final(self).bids()
                    == remove_resting(old(self).bids(), l, j) && final(self).asks() == old(
                    self,
                ).asks()) || (exists|l: int, j: int|
                0 <= l < old(self).asks().len() && 0 <= j < old(self).asks()[l].orders.len() && (
                #[trigger] old(self).asks()[l].orders[j]).id == order_id && final(self).asks()
                    == remove_resting(old(self).asks(), l, j) && final(self).bids() == old(
                    self,
                ).bids())),
    {
        if self.tomb_contains(order_id) {
            return Err(CancelError::AlreadyGone);
        }
        let looked = self.index_lookup(order_id);
        match looked {
            None => Err(CancelError::Unknown),
            Some((side, key)) => {
                let ghost idx0 = self.order_id_map@;
                let ghost tb0 = self.order_removed_set@;
                let ghost k0 = choose|k: int|
                    0 <= k < idx0.len() && #[trigger] idx0[k] == (order_id, side, key);
                let ghost own0: PriceTree = if side == OrderType::Bid {
                    self.bid_tree
                } else {
                    self.ask_tree
                };
                proof {
                    assert(own0.key_valid(key) && own0.order_at(key).id == order_id);
                    own0.lemma_key_in_range(key);
                    if side == OrderType::Bid {
                        self.bid_tree.lemma_wf_levels();
                    } else {
                        self.ask_tree.lemma_wf_levels();
                    }
                }
                let res = match side {
                    OrderType::Bid => self.bid_tree.remove_order(&key),
                    OrderType::Ask => self.ask_tree.remove_order(&key),
                };
                Self::index_remove(&mut self.order_id_map, order_id);
                let ghost tbpre = self.order_removed_set@;
                self.order_removed_set.push(order_id);
                proof {
                    lemma_tomb_push(tbpre, order_id);
                    assert(res is Ok);
                    let own1: PriceTree = if side == OrderType::Bid {
                        self.bid_tree
                    } else {
                        self.ask_tree
                    };
                    let other: PriceTree = if side == OrderType::Bid {
                        self.ask_tree
                    } else {
                        self.bid_tree
                    };
                    let lk = own0.key_level(key);
                    let lj = own0.key_slot(key);
                    let lvs0 = own0.levels();
                    let lvs1 = own1.levels();
                    assert(lvs1 == remove_resting(lvs0, lk, lj));
                    assert(lvs0[lk].orders[lj].id == order_id);
                    let m2 = self.order_id_map@;
                    let tb1 = self.order_removed_set@;
                    // Every other entry keeps a valid key; no other entry
                    // holds the removed id or its handle.
                    assert forall|k: int| 0 <= k < m2.len() implies ({
                        let e = #[trigger] m2[k];
                        &&& (e.1 == OrderType::Bid ==> self.bid_tree.key_valid(e.2)
                            && self.bid_tree.order_at(e.2).id == e.0)
                        &&& (e.1 == OrderType::Ask ==> self.ask_tree.key_valid(e.2)
                            && self.ask_tree.order_at(e.2).id == e.0)
                    }) by {
                        assert(idx0.contains(m2[k]));
                        let ka = choose|ka: int| 0 <= ka < idx0.len() && idx0[ka] == m2[k];
                        let e = m2[k];
                        assert(index_ids(m2).contains(e.0));
                        assert(e.0 != order_id);
                        if e.1 == side {
                            assert(own0.key_valid(e.2) && own0.order_at(e.2).id == e.0);
                            assert(e.2 != key) by {
                                if e.2 == key {
                                    assert(own0.order_at(e.2).id == order_id);
                                }
                            }
                            assert(own1.key_valid(e.2) && own1.order_at(e.2) == own0.order_at(
                                e.2,
                            ));
                        }
                    }
                    // Coverage: every order still resting keeps its entry.
                    assert forall|l: int, j: int|
                        0 <= l < lvs1.len() && 0 <= j < lvs1[l].orders.len() implies id_covered(
                        m2,
                        (#[trigger] lvs1[l].orders[j]).id,
                        side,
                    ) by {
                        let x = lvs1[l].orders[j];
                        let (l0, j0): (int, int) = if lvs0[lk].orders.len() == 1 {
                            (if l < lk {
                                l
                            } else {
                                l + 1
                            }, j)
                        } else {
                            if l != lk {
                                (l, j)
                            } else {
                                (l, if j < lj {
                                    j
                                } else {
                                    j + 1
                                })
                            }
                        };
                        assert(lvs0[l0].orders[j0] == x);
                        assert(id_covered(idx0, x.id, side));
                        let ke = choose|ke: int|
                            0 <= ke < idx0.len() && (#[trigger] idx0[ke]).0 == x.id && idx0[ke].1
                                == side;
                        assert(x.id != order_id) by {
                            if lvs0[lk].orders.len() == 1 {
                                assert(l0 != lk);
                            } else {
                                assert(l0 != lk || j0 != lj);
                            }
                        }
                        assert(idx0.contains(idx0[ke]));
                        assert(m2.contains(idx0[ke]));
                        let km = choose|km: int| 0 <= km < m2.len() && m2[km] == idx0[ke];
                        assert(id_covered(m2, x.id, side));
                    }
                    assert forall|l: int, j: int|
                        0 <= l < other.levels().len() && 0 <= j < other.levels()[l].orders.len()
                        implies id_covered(
                        m2,
                        (#[trigger] other.levels()[l].orders[j]).id,
                        if side == OrderType::Bid {
                            OrderType::Ask
                        } else {
                            OrderType::Bid
                        },
                    ) by {
                        let oside: OrderType = if side == OrderType::Bid {
                            OrderType::Ask
                        } else {
                            OrderType::Bid
                        };
                        let x = other.levels()[l].orders[j];
                        assert(id_covered(idx0, x.id, oside));
                        let ke = choose|ke: int|
                            0 <= ke < idx0.len() && (#[trigger] idx0[ke]).0 == x.id && idx0[ke].1
                                == oside;
                        assert(x.id != order_id) by {
                            if x.id == order_id {
                                assert(idx0[ke].0 == idx0[k0].0);
                                assert(ke == k0);
                            }
                        }
                        assert(idx0.contains(idx0[ke]));
                        assert(m2.contains(idx0[ke]));
                        let km = choose|km: int| 0 <= km < m2.len() && m2[km] == idx0[ke];
                        assert(id_covered(m2, x.id, oside));
                    }
                    // Distinctness, positivity, disjointness carry over to
                    // the shrunken ladder.
                    assert forall|l1: int, j1: int, l2: int, j2: int|
                        0 <= l1 < lvs1.len() && 0 <= j1 < lvs1[l1].orders.len() && 0 <= l2
                            < lvs1.len() && 0 <= j2 < lvs1[l2].orders.len() && (l1 != l2 || j1
                            != j2) implies lvs1[l1].orders[j1].id != lvs1[l2].orders[j2].id by {
                        let (a1, b1): (int, int) = if lvs0[lk].orders.len() == 1 {
                            (if l1 < lk {
                                l1
                            } else {
                                l1 + 1
                            }, j1)
                        } else {
                            if l1 != lk {
                                (l1, j1)
                            } else {
                                (l1, if j1 < lj {
                                    j1
                                } else {
                                    j1 + 1
                                })
                            }
                        };
                        let (a2, b2): (int, int) = if lvs0[lk].orders.len() == 1 {
                            (if l2 < lk {
                                l2
                            } else {
                                l2 + 1
                            }, j2)
                        } else {
                            if l2 != lk {
                                (l2, j2)
                            } else {
                                (l2, if j2 < lj {
                                    j2
                                } else {
                                    j2 + 1
                                })
                            }
                        };
                        assert(lvs1[l1].orders[j1] == lvs0[a1].orders[b1]);
                        assert(lvs1[l2].orders[j2] == lvs0[a2].orders[b2]);
                        assert(a1 != a2 || b1 != b2);
                    }
                    assert forall|l: int, j: int|
                        0 <= l < lvs1.len() && 0 <= j < lvs1[l].orders.len() implies lvs1[
                        l].orders[j].quantity > 0 && order_id_in_levels(
                        lvs0,
                        lvs1[l].orders[j].id,
                    ) by {
                        let (a, b): (int, int) = if lvs0[lk].orders.len() == 1 {
                            (if l < lk {
                                l
                            } else {
                                l + 1
                            }, j)
                        } else {
                            if l != lk {
                                (l, j)
                            } else {
                                (l, if j < lj {
                                    j
                                } else {
                                    j + 1
                                })
                            }
                        };
                        assert(lvs1[l].orders[j] == lvs0[a].orders[b]);
                    }
                    assert forall|l1: int, j1: int, l2: int, j2: int|
                        0 <= l1 < self.bids().len() && 0 <= j1 < self.bids()[l1].orders.len() && 0
                            <= l2 < self.asks().len() && 0 <= j2 < self.asks()[l2].orders.len()
                        implies self.bids()[l1].orders[j1].id != self.asks()[l2].orders[
                        j2].id by {
                        if side == OrderType::Bid {
                            let x = self.bids()[l1].orders[j1];
                            assert(order_id_in_levels(lvs0, x.id));
                            let (la, ja) = choose|la: int, ja: int|
                                0 <= la < lvs0.len() && 0 <= ja < lvs0[la].orders.len() && lvs0[
                                la].orders[ja].id == x.id;
                            assert(old(self).bids()[la].orders[ja].id != old(self).asks()[
                                l2].orders[j2].id);
                        } else {
                            let x = self.asks()[l2].orders[j2];
                            assert(order_id_in_levels(lvs0, x.id));
                            let (la, ja) = choose|la: int, ja: int|
                                0 <= la < lvs0.len() && 0 <= ja < lvs0[la].orders.len() && lvs0[
                                la].orders[ja].id == x.id;
                            assert(old(self).bids()[l1].orders[j1].id != old(self).asks()[
                                la].orders[ja].id);
                        }
                    }
                    // Prices of the shrunken ladder come from the old one.
                    assert forall|l: int| 0 <= l < lvs1.len() implies level_price_in(
                        lvs0,
                        (#[trigger] lvs1[l]).price,
                    ) by {
                        if lvs0[lk].orders.len() == 1 {
                            let a: int = if l < lk {
                                l
                            } else {
                                l + 1
                            };
                            assert(lvs1[l] == lvs0[a]);
                            assert(lvs0[a].price == lvs1[l].price);
                        } else {
                            if l != lk {
                                assert(lvs1[l] == lvs0[l]);
                                assert(lvs0[l].price == lvs1[l].price);
                            } else {
                                assert(lvs0[lk].price == lvs1[l].price);
                            }
                        }
                    }
                    assert forall|i: int, j: int|
                        0 <= i < self.bids().len() && 0 <= j < self.asks().len()
                        implies (#[trigger] self.bids()[i]).price < (#[trigger] self.asks()[
                        j]).price by {
                        if side == OrderType::Bid {
                            let bp = self.bids()[i].price;
                            let ib = choose|ib: int|
                                0 <= ib < lvs0.len() && lvs0[ib].price == bp;
                            assert(old(self).bids()[ib].price < old(self).asks()[j].price);
                        } else {
                            let ap = self.asks()[j].price;
                            let ja = choose|ja: int|
                                0 <= ja < lvs0.len() && lvs0[ja].price == ap;
                            assert(old(self).bids()[i].price < old(self).asks()[ja].price);
                        }
                    }
                    // Salts and tombstone disjointness.
                    assert forall|k: int| 0 <= k < m2.len() implies id_salt(
                        (#[trigger] m2[k]).0,
                    ) < self.next_salt as u128 by {
                        assert(idx0.contains(m2[k]));
                        let ka = choose|ka: int| 0 <= ka < idx0.len() && idx0[ka] == m2[k];
                    }
                    assert forall|k: int| 0 <= k < tb1.len() implies id_salt(#[trigger] tb1[k])
                        < self.next_salt as u128 by {
                        if k < tb0.len() {
                            assert(tb1[k] == tb0[k]);
                        } else {
                            assert(tb1[k] == order_id);
                            assert(id_salt(idx0[k0].0) < self.next_salt as u128);
                        }
                    }
                    assert forall|id2: u128| #[trigger] tomb_ids(tb1).contains(id2)
                        implies !index_ids(m2).contains(id2) by {
                        assert(tomb_ids(tb1) == tomb_ids(tb0).insert(order_id));
                        assert(index_ids(m2) == index_ids(idx0).remove(order_id));
                        if id2 != order_id {
                            assert(tomb_ids(tb0).contains(id2));
                            assert(!index_ids(idx0).contains(id2));
                        }
                    }
                    assert(self.wf());
                    assert(self.tombstones() =~= old(self).tombstones().insert(order_id));
                    assert(self.index_dom() =~= old(self).index_dom().remove(order_id));
                    // The removed order's position witnesses the contract.
                    if side == OrderType::Bid {
                        assert(0 <= lk < old(self).bids().len() && 0 <= lj < old(self).bids()[
                            lk].orders.len() && old(self).bids()[lk].orders[lj].id == order_id
                            && self.bids() == remove_resting(old(self).bids(), lk, lj)
                            && self.asks() == old(self).asks());
                    } else {
                        assert(0 <= lk < old(self).asks().len() && 0 <= lj < old(self).asks()[
                            lk].orders.len() && old(self).asks()[lk].orders[lj].id == order_id
                            && self.asks() == remove_resting(old(self).asks(), lk, lj)
                            && self.bids() == old(self).bids());
                    }
                }
                Ok(())
            }
        }
    }

    /// The aggregated Level-2 view: per level its price, total resting
    /// quantity and order count; bids best (highest price) first, asks
    /// best (lowest price) first.
    #[verifier::loop_isolation(false)]
    pub fn view_book_l2(&self) -> (r: L2Book)
        requires
            self.wf(),
        ensures
            r.bid@.len() == self.bids().len(),
            forall|k: int|
                0 <= k < r.bid@.len() ==> (#[trigger] r.bid@[k]).price == self.bids()[self.bids()
                    .len() - 1 - k].price && r.bid@[k].total_quantity == sum_quantities(
                    self.bids()[self.bids().len() - 1 - k].orders,
                ) && r.bid@[k].num_orders == self.bids()[self.bids().len() - 1 - k].orders.len(),
            r.ask@.len() == self.asks().len(),
            forall|k: int|
                0 <= k < r.ask@.len() ==> (#[trigger] r.ask@[k]).price == self.asks()[k].price
                    && r.ask@[k].total_quantity == sum_quantities(self.asks()[k].orders)
                    && r.ask@[k].num_orders == self.asks()[k].orders.len(),
    {
        let mut bid: Vec<L2Entry> = Vec::new();
        let n = self.bid_tree.num_levels();
        let mut k: usize = 0;
        while k < n
            invariant
                k <= n,
                bid@.len() == k,
                forall|i: int|
                    0 <= i < k ==> (#[trigger] bid@[i]).price == self.bids()[n - 1 - i].price
                        && bid@[i].total_quantity == sum_quantities(self.bids()[n - 1 - i].orders)
                        && bid@[i].num_orders == self.bids()[n - 1 - i].orders.len(),
            decreases n - k,
        {
            let entry = self.bid_tree.level_summary(n - 1 - k);
            bid.push(
                L2Entry { price: entry.0, total_quantity: entry.1, num_orders: entry.2 },
            );
            k += 1;
        }
        let mut ask: Vec<L2Entry> = Vec::new();
        let m = self.ask_tree.num_levels();
        let mut k2: usize = 0;
        while k2 < m
            invariant
                k2 <= m,
                ask@.len() == k2,
                forall|i: int|
                    0 <= i < k2 ==> (#[trigger] ask@[i]).price == self.asks()[i].price && ask@[
                    i].total_quantity == sum_quantities(self.asks()[i].orders) && ask@[
                    i].num_orders == self.asks()[i].orders.len(),
            decreases m - k2,
        {
            let entry = self.ask_tree.level_summary(k2);
            ask.push(
                L2Entry { price: entry.0, total_quantity: entry.1, num_orders: entry.2 },
            );
            k2 += 1;
        }
        L2Book { bid, ask }
    }

    /// The sequence number the next fill will carry.
    pub fn fill_sequence(&self) -> (r: u64)
        ensures
            r == self.fill_seq(),
    {
        self.next_fill_seq
    }

    /// How many order ids this book has minted so far.
    pub fn minted_count(&self) -> (r: u64)
        ensures
            r == self.minted(),
    {
        self.next_salt
    }

    /// What a well-formed book guarantees of its two ladders, stated over
    /// the public views so that callers can discharge `place_order`'s
    /// aggregate precondition and apply the matching-walk lemmas: prices
    /// strictly increase, every level's aggregate fits a 32-bit counter,
    /// quantities are positive, and order ids never repeat, on a side or
    /// across the sides.
    pub proof fn lemma_ladders_well_formed(&self)
        requires
            self.wf(),
        ensures
            sorted_levels(self.bids()),
            sorted_levels(self.asks()),
            levels_positive(self.bids()),
            levels_positive(self.asks()),
            ids_distinct(self.bids()),
            ids_distinct(self.asks()),
            ids_disjoint(self.bids(), self.asks()),
            forall|k: int|
                0 <= k < self.bids().len() ==> sum_quantities(
                    (#[trigger] self.bids()[k]).orders,
                ) <= u32::MAX,
            forall|k: int|
                0 <= k < self.asks().len() ==> sum_quantities(
                    (#[trigger] self.asks()[k]).orders,
                ) <= u32::MAX,
    {
        self.bid_tree.lemma_wf_levels();
        self.ask_tree.lemma_wf_levels();
        self.bid_tree.lemma_level_sums_bounded();
        self.ask_tree.lemma_level_sums_bounded();
    }

    /// Index consistency: the id index holds exactly the ids of the orders
    /// currently resting on either ladder.
    pub proof fn lemma_index_consistency(&self)
        requires
            self.wf(),
        ensures
            forall|id: u128|
                #[trigger] self.index_dom().contains(id) <==> (order_id_in_levels(
                    self.bids(),
                    id,
                ) || order_id_in_levels(self.asks(), id)),
    {
        assert forall|id: u128|
            #[trigger] self.index_dom().contains(id) <==> (order_id_in_levels(self.bids(), id)
                || order_id_in_levels(self.asks(), id)) by {
            if self.index_dom().contains(id) {
                let k = choose|k: int|
                    0 <= k < self.order_id_map@.len() && (#[trigger] self.order_id_map@[k]).0
                        == id;
                let e = self.order_id_map@[k];
                if e.1 == OrderType::Bid {
                    self.bid_tree.lemma_key_in_range(e.2);
                    let lk = self.bid_tree.key_level(e.2);
                    let lj = self.bid_tree.key_slot(e.2);
                    assert(self.bids()[lk].orders[lj].id == id);
                    assert(order_id_in_levels(self.bids(), id));
                } else {
                    self.ask_tree.lemma_key_in_range(e.2);
                    let lk = self.ask_tree.key_level(e.2);
                    let lj = self.ask_tree.key_slot(e.2);
                    assert(self.asks()[lk].orders[lj].id == id);
                    assert(order_id_in_levels(self.asks(), id));
                }
            }
            if order_id_in_levels(self.bids(), id) {
                let (l, j) = choose|l: int, j: int|
                    0 <= l < self.bids().len() && 0 <= j < self.bids()[l].orders.len()
                        && self.bids()[l].orders[j].id == id;
                assert(id_covered(self.order_id_map@, id, OrderType::Bid));
                let k = choose|k: int|
                    0 <= k < self.order_id_map@.len() && (#[trigger] self.order_id_map@[k]).0
                        == id && self.order_id_map@[k].1 == OrderType::Bid;
            }
            if order_id_in_levels(self.asks(), id) {
                let (l, j) = choose|l: int, j: int|
                    0 <= l < self.asks().len() && 0 <= j < self.asks()[l].orders.len()
                        && self.asks()[l].orders[j].id == id;
                assert(id_covered(self.order_id_map@, id, OrderType::Ask));
                let k = choose|k: int|
                    0 <= k < self.order_id_map@.len() && (#[trigger] self.order_id_map@[k]).0
                        == id && self.order_id_map@[k].1 == OrderType::Ask;
            }
        }
    }

    /// No empty levels: every level of either ladder holds at least one
    /// resting order.
    pub proof fn lemma_no_empty_levels(&self)
        requires
            self.wf(),
        ensures
            forall|l: int|
                0 <= l < self.bids().len() ==> (#[trigger] self.bids()[l]).orders.len() > 0,
            forall|l: int|
                0 <= l < self.asks().len() ==> (#[trigger] self.asks()[l]).orders.len() > 0,
    {
        self.bid_tree.lemma_wf_levels();
        self.ask_tree.lemma_wf_levels();
    }

    /// Tombstone disjointness: no id is both in the index and tombstoned.
    pub proof fn lemma_tombstone_disjoint(&self)
        requires
            self.wf(),
        ensures
            forall|id: u128|
                #[trigger] self.tombstones().contains(id) ==> !self.index_dom().contains(id),
    {
    }

    /// Snapshot monotonicity: ladder prices strictly increase on each side
    /// and, when both sides rest, the best bid is below the best ask.
    pub proof fn lemma_snapshot_monotone(&self)
        requires
            self.wf(),
        ensures
            sorted_levels(self.bids()),
            sorted_levels(self.asks()),
            self.bids().len() > 0 && self.asks().len() > 0 ==> self.bids()[self.bids().len()
                - 1].price < self.asks()[0].price,
    {
        self.bid_tree.lemma_wf_levels();
        self.ask_tree.lemma_wf_levels();
    }

    /// Places an order. A zero price or quantity is rejected and nothing
    /// changes. Otherwise a fresh id is minted and the order matches
    /// against the opposite ladder exactly as [`walk_match`] describes:
    /// the returned fills carry consecutive sequence numbers and the walk's
    /// resting orders, prices and quantities in walk order; fully filled
    /// resting orders leave the ladder, the index, and enter the tombstone
    /// set; and any unfilled remainder rests on its own side under the
    /// returned id, which is otherwise tombstoned at once.
    #[verifier::rlimit(100)]
    pub fn place_order(&mut self, price: u32, quantity: u32, order_type: OrderType) -> (r: Result<
        (u128, Vec<Fill>),
        PlaceError,
    >)
        requires
            old(self).wf(),
            old(self).minted() < u64::MAX,
            old(self).fill_seq() + quantity <= u64::MAX,
            has_price(old(self).own_levels(order_type), price) ==> sum_quantities(
                old(self).own_levels(order_type)[index_of_price(
                    old(self).own_levels(order_type),
                    price,
                )].orders,
            ) + quantity <= u32::MAX,
        ensures
            final(self).wf(),
            forall|id2: u128|
                old(self).tombstones().contains(id2) ==> final(self).tombstones().contains(id2),
            (r is Err) <==> (price == 0 || quantity == 0),
            r is Err ==> r == Err::<(u128, Vec<Fill>), PlaceError>(PlaceError::Rejected)
                && final(self).bids() == old(self).bids() && final(self).asks() == old(
                self).asks() && final(self).index_dom() == old(self).index_dom() && final(
                self).tombstones() == old(self).tombstones() && final(self).fill_seq() == old(
                self).fill_seq() && final(self).minted() == old(self).minted(),
            r is Ok ==> final(self).minted() == old(self).minted() + 1,
            r matches Ok((id, fills)) ==> ({
                let asc = order_type == OrderType::Bid;
                let w = walk_match(old(self).opposite_levels(order_type), price, asc, quantity);
                &&& !old(self).index_dom().contains(id)
                &&& !old(self).tombstones().contains(id)
                &&& fills@.len() == w.0.len()
                &&& forall|k: int|
                    0 <= k < w.0.len() ==> fills@[k] == (Fill {
                        sequence: (old(self).fill_seq() + k) as u64,
                        aggressor_side: order_type,
                        aggressor_id: id,
                        resting_id: w.0[k].resting_id,
                        price: w.0[k].price,
                        quantity: w.0[k].quantity,
                    })
                &&& final(self).fill_seq() == old(self).fill_seq() + w.0.len()
                &&& final(self).opposite_levels(order_type) == w.2
                &&& final(self).own_levels(order_type) == (if w.1 > 0 {
                    spec_insert_level(old(self).own_levels(order_type), id, price, w.1)
                } else {
                    old(self).own_levels(order_type)
                })
                &&& final(self).index_dom() == (if w.1 > 0 {
                    old(self).index_dom().difference(full_fill_ids(w.0)).insert(id)
                } else {
                    old(self).index_dom().difference(full_fill_ids(w.0))
                })
                &&& final(self).tombstones() == (if w.1 > 0 {
                    old(self).tombstones().union(full_fill_ids(w.0))
                } else {
                    old(self).tombstones().union(full_fill_ids(w.0)).insert(id)
                })
            }),
    {
        if quantity == 0 || price == 0 {
            return Err(PlaceError::Rejected);
        }
        let order_id = self.mint_id();
        self.next_salt = self.next_salt + 1;
        let asc: bool = match order_type {
            OrderType::Bid => true,
            OrderType::Ask => false,
        };
        let ghost lvs0 = old(self).opposite_levels(order_type);
        let ghost own0 = old(self).own_levels(order_type);
        let ghost idx0 = self.order_id_map@;
        let ghost tb0 = self.order_removed_set@;
        let ghost s0 = self.next_fill_seq;
        let ghost s0salt = old(self).next_salt;
        let ghost w = walk_match(lvs0, price, asc, quantity);
        let ghost t0: PriceTree = if asc {
            self.ask_tree
        } else {
            self.bid_tree
        };
        proof {
            if asc {
                self.ask_tree.lemma_wf_levels();
                self.bid_tree.lemma_wf_levels();
            } else {
                self.bid_tree.lemma_wf_levels();
                self.ask_tree.lemma_wf_levels();
            }
            lemma_walk_basic(lvs0, price, asc, quantity);
            lemma_walk_ids(lvs0, price, asc, quantity);
            lemma_sum_fill_nonneg(w.0);
        }
        let out = if asc {
            Self::match_loop(
                &mut self.ask_tree,
                &mut self.order_id_map,
                &mut self.order_removed_set,
                &mut self.next_fill_seq,
                price,
                true,
                quantity,
                order_id,
                order_type,
            )
        } else {
            Self::match_loop(
                &mut self.bid_tree,
                &mut self.order_id_map,
                &mut self.order_removed_set,
                &mut self.next_fill_seq,
                price,
                false,
                quantity,
                order_id,
                order_type,
            )
        };
        let fills = out.0;
        let remaining = out.1;
        let ghost m1 = self.order_id_map@;
        let ghost cons = full_fill_ids(w.0);
        proof {
            // Ids the walk consumed belong to the opposite ladder, so they
            // are covered by the old index on the opposite side and are
            // disjoint from the aggressor's own side.
            assert forall|id: u128| #[trigger] cons.contains(id) implies order_id_in_levels(
                lvs0,
                id,
            ) by {
                let k = choose|k: int|
                    0 <= k < w.0.len() && w.0[k].full && (#[trigger] w.0[k]).resting_id == id;
            }
        }
        if remaining > 0 {
            let created = current_timestamp();
            let order = Order { id: order_id, price, quantity: remaining, created_at: created };
            proof {
                assert(remaining <= quantity);
                if has_price(own0, price) {
                    assert(sum_quantities(own0[index_of_price(own0, price)].orders) + remaining
                        <= u32::MAX);
                }
            }
            let key = if asc {
                self.bid_tree.insert_order(order)
            } else {
                self.ask_tree.insert_order(order)
            };
            self.order_id_map.push((order_id, order_type, key));
            proof {
                let newe = (order_id, order_type, key);
                lemma_index_push(m1, newe);
                let m2 = self.order_id_map@;
                assert(m2 == m1.push(newe));
                let own_old: PriceTree = if asc {
                    old(self).bid_tree
                } else {
                    old(self).ask_tree
                };
                let own_new: PriceTree = if asc {
                    self.bid_tree
                } else {
                    self.ask_tree
                };
                let opp_new: PriceTree = if asc {
                    self.ask_tree
                } else {
                    self.bid_tree
                };
                let opp_side: OrderType = if asc {
                    OrderType::Ask
                } else {
                    OrderType::Bid
                };
                assert(asc == (order_type == OrderType::Bid));
                assert(own_old.levels() == own0);
                assert(opp_new.levels() == w.2);
                let own1 = spec_insert_level(own0, order_id, price, remaining);
                assert(own_new.levels() == own1);
                assert(sorted_levels(own0));
                lemma_spec_insert_shape(own0, order_id, price, remaining);
                let tb1 = self.order_removed_set@;
                // Ids the walk consumed are covered by the old index on the
                // opposite side; the fresh id is covered nowhere.
                assert forall|x: u128| #[trigger] cons.contains(x) implies index_ids(
                    idx0,
                ).contains(x) && id_covered(idx0, x, opp_side) by {
                    assert(order_id_in_levels(lvs0, x));
                    let (l, j) = choose|l: int, j: int|
                        0 <= l < lvs0.len() && 0 <= j < lvs0[l].orders.len() && lvs0[l].orders[
                        j].id == x;
                    assert(id_covered(idx0, x, opp_side));
                    let k = choose|k: int|
                        0 <= k < idx0.len() && (#[trigger] idx0[k]).0 == x && idx0[k].1
                            == opp_side;
                }
                assert(!cons.contains(order_id));
                assert(!order_id_in_levels(own0, order_id)) by {
                    if order_id_in_levels(own0, order_id) {
                        let (l, j) = choose|l: int, j: int|
                            0 <= l < own0.len() && 0 <= j < own0[l].orders.len() && own0[l].orders[
                            j].id == order_id;
                        assert(id_covered(idx0, order_id, order_type));
                        let k = choose|k: int|
                            0 <= k < idx0.len() && (#[trigger] idx0[k]).0 == order_id && idx0[k].1
                                == order_type;
                    }
                }
                assert(!order_id_in_levels(lvs0, order_id)) by {
                    if order_id_in_levels(lvs0, order_id) {
                        let (l, j) = choose|l: int, j: int|
                            0 <= l < lvs0.len() && 0 <= j < lvs0[l].orders.len() && lvs0[l].orders[
                            j].id == order_id;
                        assert(id_covered(idx0, order_id, opp_side));
                        let k = choose|k: int|
                            0 <= k < idx0.len() && (#[trigger] idx0[k]).0 == order_id && idx0[k].1
                                == opp_side;
                    }
                }
                // Index entries all point at their orders.
                assert forall|k: int| 0 <= k < m2.len() implies ({
                    let e = #[trigger] m2[k];
                    &&& (e.1 == OrderType::Bid ==> self.bid_tree.key_valid(e.2)
                        && self.bid_tree.order_at(e.2).id == e.0)
                    &&& (e.1 == OrderType::Ask ==> self.ask_tree.key_valid(e.2)
                        && self.ask_tree.order_at(e.2).id == e.0)
                }) by {
                    if k < m1.len() {
                        let e = m1[k];
                        assert(m2[k] == e);
                        assert(idx0.contains(e));
                        let k0 = choose|k0: int| 0 <= k0 < idx0.len() && idx0[k0] == e;
                        assert(index_ids(m1).contains(e.0));
                        assert(!cons.contains(e.0));
                        if e.1 == order_type {
                            assert(own_old.key_valid(e.2) && own_old.order_at(e.2).id == e.0);
                            assert(own_new.key_valid(e.2) && own_new.order_at(e.2) == own_old
                                .order_at(e.2));
                        } else {
                            assert(e.1 == opp_side);
                            assert(t0.key_valid(e.2) && t0.order_at(e.2).id == e.0);
                            assert(opp_new.key_valid(e.2) && opp_new.order_at(e.2).id == e.0);
                        }
                    } else {
                        assert(m2[k] == newe);
                        assert(own_new.key_valid(key) && own_new.order_at(key).id == order_id);
                    }
                }
                // Distinct index ids.
                assert forall|k1: int, k2: int| 0 <= k1 < k2 < m2.len() implies m2[k1].0
                    != m2[k2].0 by {
                    if k2 == m2.len() - 1 {
                        assert(m2[k1] == m1[k1]);
                        assert(index_ids(m1).contains(m1[k1].0));
                        assert(index_ids(idx0).contains(m1[k1].0));
                    } else {
                        assert(m2[k1] == m1[k1] && m2[k2] == m1[k2]);
                    }
                }
                // Coverage of both sides.
                assert forall|l: int, j: int|
                    0 <= l < own1.len() && 0 <= j < own1[l].orders.len() implies id_covered(
                    m2,
                    (#[trigger] own1[l].orders[j]).id,
                    order_type,
                ) by {
                    if own1[l].orders[j] == (OrderView { id: order_id, quantity: remaining }) {
                        assert(m2[m1.len() as int] == newe);
                        assert(id_covered(m2, order_id, order_type));
                    } else {
                        let (l0, j0) = choose|l0: int, j0: int|
                            0 <= l0 < own0.len() && 0 <= j0 < own0[l0].orders.len() && own1[
                            l].orders[j] == own0[l0].orders[j0];
                        let x = own0[l0].orders[j0].id;
                        assert(id_covered(idx0, x, order_type));
                        let k0 = choose|k0: int|
                            0 <= k0 < idx0.len() && (#[trigger] idx0[k0]).0 == x && idx0[k0].1
                                == order_type;
                        let e = idx0[k0];
                        assert(!cons.contains(x)) by {
                            if cons.contains(x) {
                                assert(order_id_in_levels(lvs0, x));
                                let (l2, j2) = choose|l2: int, j2: int|
                                    0 <= l2 < lvs0.len() && 0 <= j2 < lvs0[l2].orders.len()
                                        && lvs0[l2].orders[j2].id == x;
                                if asc {
                                    assert(old(self).bids()[l0].orders[j0].id == old(
                                        self,
                                    ).asks()[l2].orders[j2].id);
                                } else {
                                    assert(old(self).bids()[l2].orders[j2].id == old(
                                        self,
                                    ).asks()[l0].orders[j0].id);
                                }
                            }
                        }
                        assert(idx0.contains(e));
                        assert(m1.contains(e));
                        let km = choose|km: int| 0 <= km < m1.len() && m1[km] == e;
                        assert(m2[km] == e);
                        assert(id_covered(m2, x, order_type));
                    }
                }
                assert forall|l: int, j: int|
                    0 <= l < w.2.len() && 0 <= j < w.2[l].orders.len() implies id_covered(
                    m2,
                    (#[trigger] w.2[l].orders[j]).id,
                    opp_side,
                ) by {
                    let x = w.2[l].orders[j].id;
                    assert(order_id_in_levels(w.2, x));
                    assert(order_id_in_levels(lvs0, x));
                    assert(!cons.contains(x)) by {
                        if cons.contains(x) {
                            let kf = choose|kf: int|
                                0 <= kf < w.0.len() && w.0[kf].full && (#[trigger] w.0[
                                kf]).resting_id == x;
                            assert(!order_id_in_levels(w.2, x));
                        }
                    }
                    assert(id_covered(idx0, x, opp_side));
                    let k0 = choose|k0: int|
                        0 <= k0 < idx0.len() && (#[trigger] idx0[k0]).0 == x && idx0[k0].1
                            == opp_side;
                    let e = idx0[k0];
                    assert(idx0.contains(e));
                    assert(m1.contains(e));
                    let km = choose|km: int| 0 <= km < m1.len() && m1[km] == e;
                    assert(m2[km] == e);
                    assert(id_covered(m2, x, opp_side));
                }
                // Salts stay below the minting counter.
                assert forall|k: int| 0 <= k < m2.len() implies id_salt((#[trigger] m2[k]).0)
                    < self.next_salt as u128 by {
                    if k < m1.len() {
                        assert(idx0.contains(m1[k]));
                        let k0 = choose|k0: int| 0 <= k0 < idx0.len() && idx0[k0] == m1[k];
                        assert(id_salt(idx0[k0].0) < s0salt as u128);
                    } else {
                        assert(m2[k].0 == order_id);
                    }
                }
                assert forall|k: int| 0 <= k < tb1.len() implies id_salt(#[trigger] tb1[k])
                    < self.next_salt as u128 by {
                    if tb0.contains(tb1[k]) {
                        let k0 = choose|k0: int| 0 <= k0 < tb0.len() && tb0[k0] == tb1[k];
                        assert(id_salt(tb0[k0]) < s0salt as u128);
                    } else {
                        assert(consumed_by(w.0, tb1[k]));
                        assert(cons.contains(tb1[k]));
                        assert(index_ids(idx0).contains(tb1[k]));
                        let k0 = choose|k0: int|
                            0 <= k0 < idx0.len() && (#[trigger] idx0[k0]).0 == tb1[k];
                        assert(id_salt(idx0[k0].0) < s0salt as u128);
                    }
                }
                // Side id sets stay distinct and disjoint.
                assert(ids_distinct(own1));
                assert(ids_distinct(w.2));
                assert forall|l1: int, j1: int, l2: int, j2: int|
                    0 <= l1 < own1.len() && 0 <= j1 < own1[l1].orders.len() && 0 <= l2 < w.2.len()
                        && 0 <= j2 < w.2[l2].orders.len() implies own1[l1].orders[j1].id != w.2[
                    l2].orders[j2].id by {
                    let x = w.2[l2].orders[j2].id;
                    assert(order_id_in_levels(w.2, x));
                    assert(order_id_in_levels(lvs0, x));
                    let (la, ja) = choose|la: int, ja: int|
                        0 <= la < lvs0.len() && 0 <= ja < lvs0[la].orders.len() && lvs0[la].orders[
                        ja].id == x;
                    if own1[l1].orders[j1] == (OrderView { id: order_id, quantity: remaining }) {
                        assert(x != order_id);
                    } else {
                        let (l0, j0) = choose|l0: int, j0: int|
                            0 <= l0 < own0.len() && 0 <= j0 < own0[l0].orders.len() && own1[
                            l1].orders[j1] == own0[l0].orders[j0];
                        if asc {
                            assert(old(self).bids()[l0].orders[j0].id != old(self).asks()[
                                la].orders[ja].id);
                        } else {
                            assert(old(self).bids()[la].orders[ja].id != old(self).asks()[
                                l0].orders[j0].id);
                        }
                    }
                }
                // Tombstones stay disjoint from the index.
                assert forall|id: u128| #[trigger] tomb_ids(tb1).contains(id)
                    implies !index_ids(m2).contains(id) by {
                    assert(tomb_ids(tb1) == tomb_ids(tb0).union(cons));
                    assert(index_ids(m2) == index_ids(idx0).difference(cons).insert(order_id));
                    if tomb_ids(tb0).contains(id) {
                        assert(!index_ids(idx0).contains(id));
                        assert(id != order_id);
                    } else {
                        assert(cons.contains(id));
                        assert(id != order_id);
                    }
                }
                // The book stays uncrossed.
                assert(w.1 > 0);
                assert forall|i: int, j: int|
                    0 <= i < self.bids().len() && 0 <= j < self.asks().len()
                    implies (#[trigger] self.bids()[i]).price < (#[trigger] self.asks()[
                    j]).price by {
                    if asc {
                        let bp = own1[i].price;
                        let ap = w.2[j].price;
                        assert(!price_acceptable(true, ap, price));
                        assert(ap > price);
                        assert(level_price_in(lvs0, ap));
                        let ja = choose|ja: int| 0 <= ja < lvs0.len() && lvs0[ja].price == ap;
                        if bp == price {
                        } else {
                            assert(level_price_in(own0, bp));
                            let ib = choose|ib: int| 0 <= ib < own0.len() && own0[ib].price == bp;
                            assert(old(self).bids()[ib].price < old(self).asks()[ja].price);
                        }
                    } else {
                        let bp = w.2[i].price;
                        let ap = own1[j].price;
                        assert(!price_acceptable(false, bp, price));
                        assert(bp < price);
                        assert(level_price_in(lvs0, bp));
                        let ib = choose|ib: int| 0 <= ib < lvs0.len() && lvs0[ib].price == bp;
                        if ap == price {
                        } else {
                            assert(level_price_in(own0, ap));
                            let ja = choose|ja: int| 0 <= ja < own0.len() && own0[ja].price == ap;
                            assert(old(self).bids()[ib].price < old(self).asks()[ja].price);
                        }
                    }
                }
                assert(self.wf());
                assert(self.index_dom() =~= old(self).index_dom().difference(cons).insert(
                    order_id,
                ));
                assert(self.tombstones() =~= old(self).tombstones().union(cons));
            }
            Ok((order_id, fills))
        } else {
            let ghost tbpre = self.order_removed_set@;
            self.order_removed_set.push(order_id);
            proof {
                lemma_tomb_push(tbpre, order_id);
                let m2 = self.order_id_map@;
                assert(m2 == m1);
                let own_new: PriceTree = if asc {
                    self.bid_tree
                } else {
                    self.ask_tree
                };
                let opp_new: PriceTree = if asc {
                    self.ask_tree
                } else {
                    self.bid_tree
                };
                let own_old: PriceTree = if asc {
                    old(self).bid_tree
                } else {
                    old(self).ask_tree
                };
                let opp_side: OrderType = if asc {
                    OrderType::Ask
                } else {
                    OrderType::Bid
                };
                assert(asc == (order_type == OrderType::Bid));
                assert(own_new == own_old);
                assert(own_new.levels() == own0);
                assert(opp_new.levels() == w.2);
                let tb1 = self.order_removed_set@;
                assert(tomb_ids(tb1) == tomb_ids(tb0).union(cons).insert(order_id));
                assert forall|x: u128| #[trigger] cons.contains(x) implies index_ids(
                    idx0,
                ).contains(x) && id_covered(idx0, x, opp_side) by {
                    assert(order_id_in_levels(lvs0, x));
                    let (l, j) = choose|l: int, j: int|
                        0 <= l < lvs0.len() && 0 <= j < lvs0[l].orders.len() && lvs0[l].orders[
                        j].id == x;
                    assert(id_covered(idx0, x, opp_side));
                    let k = choose|k: int|
                        0 <= k < idx0.len() && (#[trigger] idx0[k]).0 == x && idx0[k].1
                            == opp_side;
                }
                assert(!cons.contains(order_id));
                // Index entries all point at their orders.
                assert forall|k: int| 0 <= k < m2.len() implies ({
                    let e = #[trigger] m2[k];
                    &&& (e.1 == OrderType::Bid ==> self.bid_tree.key_valid(e.2)
                        && self.bid_tree.order_at(e.2).id == e.0)
                    &&& (e.1 == OrderType::Ask ==> self.ask_tree.key_valid(e.2)
                        && self.ask_tree.order_at(e.2).id == e.0)
                }) by {
                    let e = m1[k];
                    assert(idx0.contains(e));
                    let k0 = choose|k0: int| 0 <= k0 < idx0.len() && idx0[k0] == e;
                    assert(index_ids(m1).contains(e.0));
                    assert(!cons.contains(e.0));
                    if e.1 == order_type {
                        assert(own_old.key_valid(e.2) && own_old.order_at(e.2).id == e.0);
                    } else {
                        assert(e.1 == opp_side);
                        assert(t0.key_valid(e.2) && t0.order_at(e.2).id == e.0);
                        assert(opp_new.key_valid(e.2) && opp_new.order_at(e.2).id == e.0);
                    }
                }
                // Coverage of both sides.
                assert forall|l: int, j: int|
                    0 <= l < own0.len() && 0 <= j < own0[l].orders.len() implies id_covered(
                    m2,
                    (#[trigger] own0[l].orders[j]).id,
                    order_type,
                ) by {
                    let x = own0[l].orders[j].id;
                    assert(id_covered(idx0, x, order_type));
                    let k0 = choose|k0: int|
                        0 <= k0 < idx0.len() && (#[trigger] idx0[k0]).0 == x && idx0[k0].1
                            == order_type;
                    let e = idx0[k0];
                    assert(!cons.contains(x)) by {
                        if cons.contains(x) {
                            assert(order_id_in_levels(lvs0, x));
                            let (l2, j2) = choose|l2: int, j2: int|
                                0 <= l2 < lvs0.len() && 0 <= j2 < lvs0[l2].orders.len() && lvs0[
                                l2].orders[j2].id == x;
                            if asc {
                                assert(old(self).bids()[l].orders[j].id == old(self).asks()[
                                    l2].orders[j2].id);
                            } else {
                                assert(old(self).bids()[l2].orders[j2].id == old(self).asks()[
                                    l].orders[j].id);
                            }
                        }
                    }
                    assert(idx0.contains(e));
                    assert(m1.contains(e));
                    let km = choose|km: int| 0 <= km < m1.len() && m1[km] == e;
                    assert(id_covered(m2, x, order_type));
                }
                assert forall|l: int, j: int|
                    0 <= l < w.2.len() && 0 <= j < w.2[l].orders.len() implies id_covered(
                    m2,
                    (#[trigger] w.2[l].orders[j]).id,
                    opp_side,
                ) by {
                    let x = w.2[l].orders[j].id;
                    assert(order_id_in_levels(w.2, x));
                    assert(order_id_in_levels(lvs0, x));
                    assert(!cons.contains(x)) by {
                        if cons.contains(x) {
                            let kf = choose|kf: int|
                                0 <= kf < w.0.len() && w.0[kf].full && (#[trigger] w.0[
                                kf]).resting_id == x;
                            assert(!order_id_in_levels(w.2, x));
                        }
                    }
                    assert(id_covered(idx0, x, opp_side));
                    let k0 = choose|k0: int|
                        0 <= k0 < idx0.len() && (#[trigger] idx0[k0]).0 == x && idx0[k0].1
                            == opp_side;
                    let e = idx0[k0];
                    assert(idx0.contains(e));
                    assert(m1.contains(e));
                    let km = choose|km: int| 0 <= km < m1.len() && m1[km] == e;
                    assert(id_covered(m2, x, opp_side));
                }
                // Salts stay below the minting counter.
                assert forall|k: int| 0 <= k < m2.len() implies id_salt((#[trigger] m2[k]).0)
                    < self.next_salt as u128 by {
                    assert(idx0.contains(m1[k]));
                    let k0 = choose|k0: int| 0 <= k0 < idx0.len() && idx0[k0] == m1[k];
                    assert(id_salt(idx0[k0].0) < s0salt as u128);
                }
                assert forall|k: int| 0 <= k < tb1.len() implies id_salt(#[trigger] tb1[k])
                    < self.next_salt as u128 by {
                    if k < tbpre.len() {
                        assert(tb1[k] == tbpre[k]);
                        if tb0.contains(tbpre[k]) {
                            let k0 = choose|k0: int| 0 <= k0 < tb0.len() && tb0[k0] == tbpre[k];
                            assert(id_salt(tb0[k0]) < s0salt as u128);
                        } else {
                            assert(consumed_by(w.0, tbpre[k]));
                            assert(cons.contains(tbpre[k]));
                            assert(index_ids(idx0).contains(tbpre[k]));
                            let k0 = choose|k0: int|
                                0 <= k0 < idx0.len() && (#[trigger] idx0[k0]).0 == tbpre[k];
                            assert(id_salt(idx0[k0].0) < s0salt as u128);
                        }
                    } else {
                        assert(tb1[k] == order_id);
                    }
                }
                // Side id sets stay distinct and disjoint.
                assert(ids_distinct(w.2));
                assert forall|l1: int, j1: int, l2: int, j2: int|
                    0 <= l1 < self.bids().len() && 0 <= j1 < self.bids()[l1].orders.len() && 0
                        <= l2 < self.asks().len() && 0 <= j2 < self.asks()[l2].orders.len()
                    implies self.bids()[l1].orders[j1].id != self.asks()[l2].orders[j2].id by {
                    if asc {
                        let x = w.2[l2].orders[j2].id;
                        assert(order_id_in_levels(w.2, x));
                        assert(order_id_in_levels(lvs0, x));
                        let (la, ja) = choose|la: int, ja: int|
                            0 <= la < lvs0.len() && 0 <= ja < lvs0[la].orders.len() && lvs0[
                            la].orders[ja].id == x;
                        assert(old(self).bids()[l1].orders[j1].id != old(self).asks()[la].orders[
                            ja].id);
                    } else {
                        let x = w.2[l1].orders[j1].id;
                        assert(order_id_in_levels(w.2, x));
                        assert(order_id_in_levels(lvs0, x));
                        let (la, ja) = choose|la: int, ja: int|
                            0 <= la < lvs0.len() && 0 <= ja < lvs0[la].orders.len() && lvs0[
                            la].orders[ja].id == x;
                        assert(old(self).bids()[la].orders[ja].id != old(self).asks()[l2].orders[
                            j2].id);
                    }
                }
                // Tombstones stay disjoint from the index.
                assert forall|id: u128| #[trigger] tomb_ids(tb1).contains(id)
                    implies !index_ids(m2).contains(id) by {
                    assert(index_ids(m2) == index_ids(idx0).difference(cons));
                    if tomb_ids(tb0).contains(id) {
                        assert(!index_ids(idx0).contains(id));
                    } else if cons.contains(id) {
                    } else {
                        assert(id == order_id);
                        assert(!index_ids(idx0).contains(id));
                    }
                }
                // The book stays uncrossed.
                assert forall|i: int, j: int|
                    0 <= i < self.bids().len() && 0 <= j < self.asks().len()
                    implies (#[trigger] self.bids()[i]).price < (#[trigger] self.asks()[
                    j]).price by {
                    if asc {
                        let ap = w.2[j].price;
                        assert(level_price_in(lvs0, ap));
                        let ja = choose|ja: int| 0 <= ja < lvs0.len() && lvs0[ja].price == ap;
                        assert(old(self).bids()[i].price < old(self).asks()[ja].price);
                    } else {
                        let bp = w.2[i].price;
                        assert(level_price_in(lvs0, bp));
                        let ib = choose|ib: int| 0 <= ib < lvs0.len() && lvs0[ib].price == bp;
                        assert(old(self).bids()[ib].price < old(self).asks()[j].price);
                    }
                }
                assert(self.wf());
                assert(self.index_dom() =~= old(self).index_dom().difference(cons));
                assert(self.tombstones() =~= old(self).tombstones().union(cons).insert(order_id));
            }
            Ok((order_id, fills))
        }
    }
}

} // verus!
