//! Core data types of the matching engine.
//!
//! Prices and quantities are fixed-point values: a `u64` counts ticks of
//! price or lots of quantity at a scale chosen by the caller, so that all
//! matching arithmetic is exact. Order and trade identifiers are 128-bit
//! values; timestamps count milliseconds.

use vstd::prelude::*;

verus! {

/// Whether an order is a priced (resting-capable) limit order or an
/// unpriced market order.
#[derive(Debug, Clone, Copy, PartialEq, Eq, Structural, Hash)]
pub enum OrderType {
    Limit,
    Market,
}

/// The side of the book an order belongs to.
#[derive(Debug, Clone, Copy, PartialEq, Eq, Structural, Hash)]
pub enum OrderSide {
    Buy,
    Sell,
}

impl OrderSide {
    /// The side a taker on `self` matches against.
    pub open spec fn spec_opposite(self) -> OrderSide {
        match self {
            OrderSide::Buy => OrderSide::Sell,
            OrderSide::Sell => OrderSide::Buy,
        }
    }

    /// Executable counterpart of [`OrderSide::spec_opposite`].
    #[verifier::when_used_as_spec(spec_opposite)]
    pub fn opposite(self) -> (r: OrderSide)
        ensures
            r == self.spec_opposite(),
    {
        match self {
            OrderSide::Buy => OrderSide::Sell,
            OrderSide::Sell => OrderSide::Buy,
        }
    }
}

/// An order as admitted to the engine.
///
/// `price` is ignored for market orders. `quantity` is the remaining
/// quantity: the engine decrements it while the order is matched.
#[derive(Debug, Clone, Copy, PartialEq, Eq, Structural)]
pub struct Order {
    pub id: u128,
    pub user_id: u64,
    pub order_type: OrderType,
    pub side: OrderSide,
    pub price: u64,
    pub quantity: u64,
    pub timestamp: i64,
}

/// One match between a taker and a resting maker, at the maker's price.
#[derive(Debug, Clone, Copy, PartialEq, Eq, Structural)]
pub struct Trade {
    pub id: u128,
    pub taker_order_id: u128,
    pub maker_order_id: u128,
    pub price: u64,
    pub quantity: u64,
    pub timestamp: i64,
}

/// How a delta changes the aggregate quantity at one price level.
#[derive(Debug, Clone, Copy, PartialEq, Eq, Structural, Hash)]
pub enum DeltaAction {
    New,
    Update,
    Delete,
}

/// A differential update: the aggregate at one price level after a
/// mutation of the book.
#[derive(Debug, Clone, Copy, PartialEq, Eq, Structural)]
pub struct OrderBookDelta {
    pub action: DeltaAction,
    pub side: OrderSide,
    pub price: u64,
    pub new_quantity: u128,
}

/// One aggregated price level of a snapshot.
#[derive(Debug, Clone, Copy, PartialEq, Eq, Structural)]
pub struct OrderBookLevel {
    pub price: u64,
    pub quantity: u128,
}

/// A consistent view of the whole book: both sides best-first.
#[derive(Debug, Clone)]
pub struct OrderBookSnapshot {
    pub symbol: String,
    pub bids: Vec<OrderBookLevel>,
    pub asks: Vec<OrderBookLevel>,
    pub last_traded_price: Option<u64>,
    pub timestamp: i64,
}

/// Why a cancellation failed.
#[derive(Debug, Clone, Copy, PartialEq, Eq, Structural)]
pub enum CancelError {
    /// The order id is not resting in the book.
    NotFound,
    /// The order id is indexed but absent from its recorded level; this
    /// would mean the book's index invariant was violated. The verified
    /// engine proves it never returns this.
    Inconsistent,
}

} // verus!
