//! The per-symbol command step: one decoded broker command applied to the
//! book, with everything the consumer must fan out afterwards.
//!
//! The surrounding loop — popping raw commands from the broker, decoding
//! them, and publishing the outcome — performs I/O and lives outside the
//! library; it calls [`apply_command`] for every decision.

use vstd::prelude::*;
use crate::types::{CancelError, Order, OrderBookDelta, OrderBookSnapshot, OrderSide, OrderType, Trade};
use crate::book::MatchingEngine;
use crate::model::{
    add_order_result, cancel_from_side, delta_matches, dms_of, fills_of, levels_have_id,
    sum_quants,
};

verus! {

/// A decoded broker command.
pub enum EngineCommand {
    NewOrder(Order),
    CancelOrder { order_id: u128 },
    SnapshotRequest { response_channel: String },
}

/// Everything one command produces for fan-out: trades for the trade
/// list and the last-traded-price key, deltas for the delta channel and
/// the materialized book, a cancellation result to report, and a
/// snapshot to publish on the requester's channel.
pub struct CommandOutcome {
    pub trades: Vec<Trade>,
    pub deltas: Vec<OrderBookDelta>,
    pub cancel_result: Option<Result<Order, CancelError>>,
    pub snapshot: Option<OrderBookSnapshot>,
}

/// Apply one decoded command to the book.
///
/// A `NewOrder` admits the order, a `CancelOrder` cancels by id, and a
/// `SnapshotRequest` takes a snapshot without changing the book; the
/// outcome carries exactly what the engine produced.
pub fn apply_command(engine: &mut MatchingEngine, cmd: EngineCommand) -> (out: CommandOutcome)
    requires
        old(engine).wf(),
        match cmd {
            EngineCommand::NewOrder(order) => order.order_type == OrderType::Limit
                && order.quantity > 0 ==> order.price > 0 && !old(engine).has_resting(order.id),
            _ => true,
        },
    ensures
        final(engine).wf(),
        match cmd {
            EngineCommand::NewOrder(order) => {
                let ar = add_order_result(old(engine)@, order);
                &&& final(engine)@ == ar.book
                &&& fills_of(out.trades@) == ar.fills
                &&& dms_of(out.deltas@) == ar.deltas
                &&& out.cancel_result is None
                &&& out.snapshot is None
                &&& forall|i: int|
                    0 <= i < out.trades@.len() ==> (#[trigger] out.trades@[i]).taker_order_id
                        == order.id && out.trades@[i].quantity > 0 && out.trades@[i].price > 0
            },
            EngineCommand::CancelOrder { order_id } => {
                &&& out.trades@.len() == 0
                &&& out.snapshot is None
                &&& final(engine)@.symbol == old(engine)@.symbol
                &&& final(engine)@.last_traded_price == old(engine)@.last_traded_price
                &&& if levels_have_id(old(engine)@.bids, order_id) {
                    let cm = cancel_from_side(OrderSide::Buy, old(engine)@.bids, order_id);
                    &&& out.cancel_result == Some(Ok::<Order, CancelError>(cm.removed))
                    &&& final(engine)@.bids == cm.levels
                    &&& final(engine)@.asks == old(engine)@.asks
                    &&& out.deltas@.len() == 1
                    &&& delta_matches(out.deltas@[0], cm.delta)
                } else if levels_have_id(old(engine)@.asks, order_id) {
                    let cm = cancel_from_side(OrderSide::Sell, old(engine)@.asks, order_id);
                    &&& out.cancel_result == Some(Ok::<Order, CancelError>(cm.removed))
                    &&& final(engine)@.asks == cm.levels
                    &&& final(engine)@.bids == old(engine)@.bids
                    &&& out.deltas@.len() == 1
                    &&& delta_matches(out.deltas@[0], cm.delta)
                } else {
                    &&& out.cancel_result == Some(
                        Err::<Order, CancelError>(CancelError::NotFound),
                    )
                    &&& final(engine)@ == old(engine)@
                    &&& out.deltas@.len() == 0
                }
            },
            EngineCommand::SnapshotRequest { .. } => {
                &&& *final(engine) == *old(engine)
                &&& out.trades@.len() == 0
                &&& out.deltas@.len() == 0
                &&& out.cancel_result is None
                &&& match out.snapshot {
                    Some(s) => {
                        &&& s.symbol@ == old(engine)@.symbol
                        &&& s.last_traded_price == old(engine)@.last_traded_price
                        &&& s.bids@.len() == old(engine)@.bids.len()
                        &&& s.asks@.len() == old(engine)@.asks.len()
                        &&& forall|i: int|
                            0 <= i < s.bids@.len() ==> (#[trigger] s.bids@[i]).price == old(
                                engine,
                            )@.bids[i].price && s.bids@[i].quantity == sum_quants(
                                old(engine)@.bids[i].orders,
                            )
                        &&& forall|i: int|
                            0 <= i < s.asks@.len() ==> (#[trigger] s.asks@[i]).price == old(
                                engine,
                            )@.asks[i].price && s.asks@[i].quantity == sum_quants(
                                old(engine)@.asks[i].orders,
                            )
                    },
                    None => false,
                }
            },
        },
{
    match cmd {
        EngineCommand::NewOrder(order) => {
            let td = engine.add_order(order);
            CommandOutcome {
                trades: td.0,
                deltas: td.1,
                cancel_result: None,
                snapshot: None,
            }
        },
        EngineCommand::CancelOrder { order_id } => {
            let rd = engine.cancel_order(order_id);
            CommandOutcome {
                trades: Vec::new(),
                deltas: rd.1,
                cancel_result: Some(rd.0),
                snapshot: None,
            }
        },
        EngineCommand::SnapshotRequest { .. } => {
            let s = engine.get_order_book_snapshot();
            CommandOutcome {
                trades: Vec::new(),
                deltas: Vec::new(),
                cancel_result: None,
                snapshot: Some(s),
            }
        },
    }
}

} // verus!
