//! A per-symbol continuous limit-order-book matching engine.
//!
//! The book keeps two price-ordered sides of FIFO price levels plus an
//! order-id index, matches incoming limit and market orders under
//! price-time priority, and reports every mutation as trades and
//! aggregate level deltas.

pub mod book;
pub mod commands;
pub mod keys;
pub mod laws;
pub mod model;
pub mod types;

pub use book::MatchingEngine;
pub use commands::apply_command;
pub use commands::CommandOutcome;
pub use commands::EngineCommand;

pub use types::CancelError;
pub use types::DeltaAction;
pub use types::Order;
pub use types::OrderBookDelta;
pub use types::OrderBookLevel;
pub use types::OrderBookSnapshot;
pub use types::OrderSide;
pub use types::OrderType;
pub use types::Trade;
