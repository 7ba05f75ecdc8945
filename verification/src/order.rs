//! A resting or incoming order.

use vstd::prelude::*;

verus! {

/// One order: a 128-bit id minted at construction, an immutable positive
/// price, a remaining quantity that only ever decreases, and a creation
/// timestamp kept for audit only (microseconds since the Unix epoch).
#[derive(Clone, Copy, Debug, PartialEq, Eq, Structural)]
pub struct Order {
    pub id: u128,
    pub price: u32,
    pub quantity: u32,
    pub created_at: u64,
}

/// The part of an order the book's contracts speak of: the audit timestamp
/// is left out, so that views are deterministic.
pub struct OrderView {
    pub id: u128,
    pub quantity: u32,
}

/// Relies on uuid::Uuid::new_v4 to mint a random 128-bit order id.
#[verifier::external_body]
pub(crate) fn random_order_id() -> (r: u128) {
    uuid::Uuid::new_v4().as_u128()
}

#[verifier::external_type_specification]
#[verifier::external_body]
pub struct ExSystemTime(std::time::SystemTime);

/// Relies on std::time::SystemTime::now for the wall clock.
#[verifier::external_body]
fn system_time_now() -> (r: std::time::SystemTime) {
    std::time::SystemTime::now()
}

/// Relies on std::time::SystemTime::duration_since against the Unix epoch;
/// yields the microseconds where they are representable.
#[verifier::external_body]
fn micros_since_unix_epoch(t: std::time::SystemTime) -> (r: Option<u64>) {
    match t.duration_since(std::time::UNIX_EPOCH) {
        Ok(d) => u64::try_from(d.as_micros()).ok(),
        Err(_) => None,
    }
}

/// The creation timestamp for an order minted now; a clock outside the
/// representable range reads as zero.
pub(crate) fn current_timestamp() -> u64 {
    match micros_since_unix_epoch(system_time_now()) {
        Some(t) => t,
        None => 0,
    }
}

impl Order {
    pub open spec fn ov(&self) -> OrderView {
        OrderView { id: self.id, quantity: self.quantity }
    }

    /// Mints an order with a fresh random id, stamped with the current time.
    pub fn new(price: u32, quantity: u32) -> (r: Order)
        ensures
            r.price == price,
            r.quantity == quantity,
    {
        Order { id: random_order_id(), price, quantity, created_at: current_timestamp() }
    }

    pub fn id(&self) -> (r: u128)
        ensures
            r == self.id,
    {
        self.id
    }

    pub fn price(&self) -> (r: u32)
        ensures
            r == self.price,
    {
        self.price
    }

    pub fn quantity(&self) -> (r: u32)
        ensures
            r == self.quantity,
    {
        self.quantity
    }

    pub fn update_quantity(&mut self, quantity: u32)
        ensures
            *final(self) == (Order { quantity, ..*old(self) }),
    {
        self.quantity = quantity
    }

    pub fn created_at(&self) -> (r: u64)
        ensures
            r == self.created_at,
    {
        self.created_at
    }
}

} // verus!
