//! Requests a client can send to the engine.

use vstd::prelude::*;
use crate::book::OrderType;

verus! {

#[derive(Clone, Copy, Debug, PartialEq, Eq, Structural)]
pub struct PlaceOrderArgs {
    pub order_type: OrderType,
    pub price: u32,
    pub quantity: u32,
}

#[derive(Clone, Copy, Debug, PartialEq, Eq, Structural)]
pub struct CancelOrderArgs {
    pub order_id: u128,
}

#[derive(Clone, Copy, Debug, PartialEq, Eq, Structural)]
pub enum Request {
    PlaceOrder(PlaceOrderArgs),
    CancelOrder(CancelOrderArgs),
    ViewL2Book,
}

} // verus!
