use matching_engine::{
    apply_command, CancelError, DeltaAction, EngineCommand, MatchingEngine, Order, OrderSide,
    OrderType,
};
use matching_engine::keys::{
    asks_book_key, bids_book_key, cancel_queue_key, deltas_channel_key, inconsistent_message,
    key_suffix, ltp_key, not_found_message, orders_queue_key, snapshot_requests_key,
    trades_queue_key,
};
use uuid::Uuid;

fn order(
    order_type: OrderType,
    side: OrderSide,
    price: u64,
    quantity: u64,
    user_id: u64,
) -> Order {
    Order {
        id: Uuid::new_v4().as_u128(),
        user_id,
        order_type,
        side,
        price,
        quantity,
        timestamp: chrono::Utc::now().timestamp_millis(),
    }
}

#[test]
fn apply_command_new_order_matches() {
    let mut engine = MatchingEngine::new("PAIR".to_string());
    let sell = order(OrderType::Limit, OrderSide::Sell, 100, 10, 1);
    let out1 = apply_command(&mut engine, EngineCommand::NewOrder(sell.clone()));
    assert!(out1.trades.is_empty());
    assert_eq!(out1.deltas.len(), 1);
    assert!(out1.cancel_result.is_none());
    assert!(out1.snapshot.is_none());

    let buy = order(OrderType::Limit, OrderSide::Buy, 100, 4, 2);
    let out2 = apply_command(&mut engine, EngineCommand::NewOrder(buy.clone()));
    assert_eq!(out2.trades.len(), 1);
    assert_eq!(out2.trades[0].price, 100);
    assert_eq!(out2.trades[0].quantity, 4);
    assert_eq!(out2.deltas.len(), 1);
    assert_eq!(out2.deltas[0].action, DeltaAction::Update);
    assert_eq!(out2.deltas[0].new_quantity, 6);
}

#[test]
fn apply_command_cancel() {
    let mut engine = MatchingEngine::new("PAIR".to_string());
    let sell = order(OrderType::Limit, OrderSide::Sell, 100, 10, 1);
    apply_command(&mut engine, EngineCommand::NewOrder(sell.clone()));

    let out = apply_command(&mut engine, EngineCommand::CancelOrder { order_id: sell.id });
    assert!(out.trades.is_empty());
    assert_eq!(out.deltas.len(), 1);
    assert_eq!(out.deltas[0].action, DeltaAction::Delete);
    let cancelled = out.cancel_result.unwrap().unwrap();
    assert_eq!(cancelled.id, sell.id);

    let out2 = apply_command(&mut engine, EngineCommand::CancelOrder { order_id: sell.id });
    assert_eq!(out2.cancel_result.unwrap().unwrap_err(), CancelError::NotFound);
    assert!(out2.deltas.is_empty());
}

#[test]
fn apply_command_snapshot_request() {
    let mut engine = MatchingEngine::new("PAIR".to_string());
    apply_command(
        &mut engine,
        EngineCommand::NewOrder(order(OrderType::Limit, OrderSide::Buy, 98, 3, 1)),
    );
    let out = apply_command(
        &mut engine,
        EngineCommand::SnapshotRequest { response_channel: "reply_here".to_string() },
    );
    assert!(out.trades.is_empty());
    assert!(out.deltas.is_empty());
    assert!(out.cancel_result.is_none());
    let s = out.snapshot.unwrap();
    assert_eq!(s.symbol, "PAIR");
    assert_eq!(s.bids.len(), 1);
    assert_eq!(s.bids[0].price, 98);
    assert_eq!(s.bids[0].quantity, 3);
    // the request changed nothing
    let s2 = engine.get_order_book_snapshot();
    assert_eq!(s2.bids.len(), 1);
}

#[test]
fn key_suffix_upper_cases_the_pair() {
    assert_eq!(key_suffix("btc", "inr"), "BTC_INR");
    assert_eq!(key_suffix("Eth", "usdT"), "ETH_USDT");
}

#[test]
fn broker_key_names_follow_the_scheme() {
    let suffix = key_suffix("btc", "inr");
    assert_eq!(orders_queue_key(&suffix), "orderbook:orders:BTC_INR");
    assert_eq!(cancel_queue_key(&suffix), "orderbook:cancel:BTC_INR");
    assert_eq!(
        snapshot_requests_key(&suffix),
        "orderbook:snapshot:BTC_INR:requests"
    );
    assert_eq!(deltas_channel_key(&suffix), "orderbook:deltas:BTC_INR");
    assert_eq!(trades_queue_key(&suffix), "orderbook:trades:BTC_INR");
    assert_eq!(ltp_key(&suffix), "orderbook:ltp:BTC_INR");
    assert_eq!(bids_book_key(&suffix), "orderbook:bids:BTC_INR");
    assert_eq!(asks_book_key(&suffix), "orderbook:asks:BTC_INR");
}

#[test]
fn engine_log_messages() {
    let id = Uuid::new_v4();
    assert_eq!(
        not_found_message(&id.to_string()),
        format!("[Engine] Order {} not found for cancellation.", id)
    );
    assert_eq!(
        inconsistent_message(&id.to_string()),
        format!("[Engine] Order {} in map but not in book.", id)
    );
}
