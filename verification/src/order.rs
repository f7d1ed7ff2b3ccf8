//! Value types: orders, fills, and depth reports.

use vstd::prelude::*;

verus! {

/// How an order behaves when it cannot be fully matched on admission.
#[derive(Clone, Copy, Debug, PartialEq, Eq, Structural)]
pub enum OrderType {
    /// Match only at the limit price or better; any remainder rests.
    Limit,
    /// Match against the best available prices; the price field is ignored.
    Market,
    /// Declared variant: execute fully or cancel. Its distinguishing
    /// semantics are not implemented; admission treats it like `Limit`.
    Fok,
    /// Fill as much as possible at once; any remainder is discarded,
    /// never rested.
    Ioc,
    /// Declared variant: rest untouched until the whole order can execute.
    /// Its distinguishing semantics are not implemented; admission treats
    /// it like `Limit`.
    Aon,
}

/// Whether an order buys or sells the instrument.
#[derive(Clone, Copy, Debug, PartialEq, Eq, Structural)]
pub enum OrderSide {
    Buy,
    Sell,
}

/// One order. `order_number` is the engine-assigned identity: it is set once
/// at admission, never reused, and is the key for cancellation and content
/// update. `size` is the only field that changes while the order rests (it
/// shrinks on partial fills); `price` and `order_number` stay fixed.
#[derive(Clone, Copy, Debug, PartialEq, Eq, Structural)]
pub struct Order {
    pub order_id: i64,
    pub order_number: i64,
    pub order_side: OrderSide,
    pub size: i64,
    pub price: i64,
    pub timestamp: i64,
    pub order_type: OrderType,
}

impl Order {
    /// A fresh order as a caller submits it: identity and timestamp are
    /// zeroed here and assigned by the engine at admission.
    pub fn new(order_side: OrderSide, size: i64, price: i64, order_type: OrderType) -> (r: Order)
        ensures
            r == (Order {
                order_id: 0,
                order_number: 0,
                order_side,
                size,
                price,
                timestamp: 0,
                order_type,
            }),
    {
        Order {
            order_id: 0,
            order_number: 0,
            order_side,
            size,
            price,
            timestamp: 0,
            order_type,
        }
    }
}

/// One matched trade: `size` units at the resting (passive) order's `price`,
/// in the aggressor's `direction`, between the two parties' `order_id`s.
#[derive(Clone, Copy, Debug)]
pub struct Fill {
    pub size: i64,
    pub price: i64,
    pub direction: OrderSide,
    pub aggressor_id: i64,
    pub passive_id: i64,
    pub timestamp: i64,
    pub fill_id: i64,
}

/// Result of a depth query. The volume-weighted average price over the
/// included depth is the exact rational `size_weighted_price / size`;
/// `size_weighted_price` is the magnitude of the sum of price times
/// included quantity over the included orders.
#[derive(Clone, Copy, Debug, PartialEq, Eq, Structural)]
pub struct LimitReport {
    pub size_weighted_price: i64,
    pub size: i64,
}

} // verus!
