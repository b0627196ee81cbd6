use matching_engine::{
    CancelError, DeltaAction, MatchingEngine, Order, OrderSide, OrderType,
};
use uuid::Uuid;

fn setup() -> MatchingEngine {
    MatchingEngine::new("TEST_SYMBOL".to_string())
}

fn order(
    order_type: OrderType,
    side: OrderSide,
    price: u64,
    quantity: u64,
    user_id: u64,
) -> Order {
    Order {
        id: Uuid::new_v4().as_u128(),
        user_id,
        order_type,
        side,
        price,
        quantity,
        timestamp: chrono::Utc::now().timestamp_millis(),
    }
}

#[test]
fn test_add_limit_buy_order_no_match() {
    let mut engine = setup();
    let o = order(OrderType::Limit, OrderSide::Buy, 100, 10, 1);
    let (trades, deltas) = engine.add_order(o.clone());

    assert!(trades.is_empty());
    assert_eq!(deltas.len(), 1);
    assert_eq!(deltas[0].action, DeltaAction::New);
    assert_eq!(deltas[0].side, OrderSide::Buy);
    assert_eq!(deltas[0].price, 100);
    assert_eq!(deltas[0].new_quantity, 10);

    let snapshot = engine.get_order_book_snapshot();
    assert_eq!(snapshot.bids.len(), 1);
    assert_eq!(snapshot.bids[0].price, 100);
    assert_eq!(snapshot.bids[0].quantity, 10);
    assert!(snapshot.asks.is_empty());
}

#[test]
fn test_add_limit_sell_order_no_match() {
    let mut engine = setup();
    let o = order(OrderType::Limit, OrderSide::Sell, 100, 10, 1);
    let (trades, deltas) = engine.add_order(o.clone());

    assert!(trades.is_empty());
    assert_eq!(deltas.len(), 1);
    assert_eq!(deltas[0].action, DeltaAction::New);
    assert_eq!(deltas[0].side, OrderSide::Sell);
    assert_eq!(deltas[0].price, 100);
    assert_eq!(deltas[0].new_quantity, 10);

    let snapshot = engine.get_order_book_snapshot();
    assert_eq!(snapshot.asks.len(), 1);
    assert_eq!(snapshot.asks[0].price, 100);
    assert_eq!(snapshot.asks[0].quantity, 10);
    assert!(snapshot.bids.is_empty());
}

#[test]
fn test_limit_order_full_match() {
    let mut engine = setup();
    let sell_order = order(OrderType::Limit, OrderSide::Sell, 100, 10, 1);
    engine.add_order(sell_order.clone());

    let buy_order = order(OrderType::Limit, OrderSide::Buy, 100, 10, 2);
    let (trades, deltas) = engine.add_order(buy_order.clone());

    assert_eq!(trades.len(), 1);
    assert_eq!(trades[0].price, 100);
    assert_eq!(trades[0].quantity, 10);
    assert_eq!(trades[0].taker_order_id, buy_order.id);
    assert_eq!(trades[0].maker_order_id, sell_order.id);

    assert_eq!(deltas.len(), 1);
    assert_eq!(deltas[0].action, DeltaAction::Delete);
    assert_eq!(deltas[0].side, OrderSide::Sell);
    assert_eq!(deltas[0].price, 100);
    assert_eq!(deltas[0].new_quantity, 0);

    let snapshot = engine.get_order_book_snapshot();
    assert!(snapshot.bids.is_empty());
    assert!(snapshot.asks.is_empty());
    assert_eq!(engine.get_last_traded_price(), Some(100));
}

#[test]
fn test_limit_order_partial_match_taker_fully_filled() {
    let mut engine = setup();
    let sell_order = order(OrderType::Limit, OrderSide::Sell, 100, 15, 1);
    engine.add_order(sell_order.clone());

    let buy_order = order(OrderType::Limit, OrderSide::Buy, 100, 10, 2);
    let (trades, deltas) = engine.add_order(buy_order.clone());

    assert_eq!(trades.len(), 1);
    assert_eq!(trades[0].price, 100);
    assert_eq!(trades[0].quantity, 10);

    assert_eq!(deltas.len(), 1);
    assert_eq!(deltas[0].action, DeltaAction::Update);
    assert_eq!(deltas[0].side, OrderSide::Sell);
    assert_eq!(deltas[0].price, 100);
    assert_eq!(deltas[0].new_quantity, 5); // Remaining 5

    let snapshot = engine.get_order_book_snapshot();
    assert!(snapshot.bids.is_empty());
    assert_eq!(snapshot.asks.len(), 1);
    assert_eq!(snapshot.asks[0].price, 100);
    assert_eq!(snapshot.asks[0].quantity, 5);
    assert_eq!(engine.get_last_traded_price(), Some(100));
}

#[test]
fn test_limit_order_partial_match_maker_fully_filled() {
    let mut engine = setup();
    let sell_order = order(OrderType::Limit, OrderSide::Sell, 100, 10, 1);
    engine.add_order(sell_order.clone());

    let buy_order = order(OrderType::Limit, OrderSide::Buy, 100, 15, 2);
    let (trades, deltas) = engine.add_order(buy_order.clone());

    assert_eq!(trades.len(), 1);
    assert_eq!(trades[0].price, 100);
    assert_eq!(trades[0].quantity, 10);

    assert_eq!(deltas.len(), 2); // One for delete, one for new resting buy order
    assert_eq!(deltas[0].action, DeltaAction::Delete);
    assert_eq!(deltas[0].side, OrderSide::Sell);
    assert_eq!(deltas[0].price, 100);
    assert_eq!(deltas[0].new_quantity, 0);

    assert_eq!(deltas[1].action, DeltaAction::New);
    assert_eq!(deltas[1].side, OrderSide::Buy);
    assert_eq!(deltas[1].price, 100);
    assert_eq!(deltas[1].new_quantity, 5); // Remaining 5

    let snapshot = engine.get_order_book_snapshot();
    assert_eq!(snapshot.bids.len(), 1);
    assert_eq!(snapshot.bids[0].price, 100);
    assert_eq!(snapshot.bids[0].quantity, 5);
    assert!(snapshot.asks.is_empty());
    assert_eq!(engine.get_last_traded_price(), Some(100));
}

#[test]
fn test_multiple_limit_orders_at_same_price() {
    let mut engine = setup();
    let sell_order_1 = order(OrderType::Limit, OrderSide::Sell, 100, 5, 1);
    let sell_order_2 = order(OrderType::Limit, OrderSide::Sell, 100, 7, 1);
    engine.add_order(sell_order_1.clone());
    engine.add_order(sell_order_2.clone());

    let buy_order = order(OrderType::Limit, OrderSide::Buy, 100, 10, 2);
    let (trades, deltas) = engine.add_order(buy_order.clone());

    assert_eq!(trades.len(), 2);
    assert_eq!(trades[0].quantity, 5);
    assert_eq!(trades[1].quantity, 5); // 10 - 5 = 5 remaining from taker, fills 5 from second maker

    assert_eq!(deltas.len(), 1);
    assert_eq!(deltas[0].action, DeltaAction::Update);
    assert_eq!(deltas[0].side, OrderSide::Sell);
    assert_eq!(deltas[0].price, 100);
    assert_eq!(deltas[0].new_quantity, 2); // 7 - 5 = 2 remaining

    let snapshot = engine.get_order_book_snapshot();
    assert_eq!(snapshot.asks.len(), 1);
    assert_eq!(snapshot.asks[0].quantity, 2);
    assert_eq!(engine.get_last_traded_price(), Some(100));
}

#[test]
fn test_market_buy_order_full_fill() {
    let mut engine = setup();
    let sell_order_1 = order(OrderType::Limit, OrderSide::Sell, 100, 5, 1);
    let sell_order_2 = order(OrderType::Limit, OrderSide::Sell, 101, 7, 1);
    engine.add_order(sell_order_1.clone());
    engine.add_order(sell_order_2.clone());

    let buy_market_order = order(OrderType::Market, OrderSide::Buy, 0, 12, 2);
    let (trades, deltas) = engine.add_order(buy_market_order.clone());

    assert_eq!(trades.len(), 2);
    assert_eq!(trades[0].price, 100);
    assert_eq!(trades[0].quantity, 5);
    assert_eq!(trades[1].price, 101);
    assert_eq!(trades[1].quantity, 7);

    assert_eq!(deltas.len(), 2);
    assert_eq!(deltas[0].action, DeltaAction::Delete);
    assert_eq!(deltas[0].side, OrderSide::Sell);
    assert_eq!(deltas[0].price, 100);
    assert_eq!(deltas[1].action, DeltaAction::Delete);
    assert_eq!(deltas[1].side, OrderSide::Sell);
    assert_eq!(deltas[1].price, 101);

    let snapshot = engine.get_order_book_snapshot();
    assert!(snapshot.bids.is_empty());
    assert!(snapshot.asks.is_empty());
    assert_eq!(engine.get_last_traded_price(), Some(101));
}

#[test]
fn test_market_sell_order_partial_fill() {
    let mut engine = setup();
    let buy_order_1 = order(OrderType::Limit, OrderSide::Buy, 100, 5, 1);
    let buy_order_2 = order(OrderType::Limit, OrderSide::Buy, 99, 7, 1);
    engine.add_order(buy_order_1.clone());
    engine.add_order(buy_order_2.clone());

    let sell_market_order = order(OrderType::Market, OrderSide::Sell, 0, 8, 2);
    let (trades, deltas) = engine.add_order(sell_market_order.clone());

    assert_eq!(trades.len(), 2);
    assert_eq!(trades[0].price, 100);
    assert_eq!(trades[0].quantity, 5);
    assert_eq!(trades[1].price, 99);
    assert_eq!(trades[1].quantity, 3); // 8 - 5 = 3 remaining from taker, fills 3 from second maker

    assert_eq!(deltas.len(), 2);
    assert_eq!(deltas[0].action, DeltaAction::Delete);
    assert_eq!(deltas[0].side, OrderSide::Buy);
    assert_eq!(deltas[0].price, 100);
    assert_eq!(deltas[1].action, DeltaAction::Update);
    assert_eq!(deltas[1].side, OrderSide::Buy);
    assert_eq!(deltas[1].price, 99);
    assert_eq!(deltas[1].new_quantity, 4); // 7 - 3 = 4 remaining

    let snapshot = engine.get_order_book_snapshot();
    assert_eq!(snapshot.bids.len(), 1);
    assert_eq!(snapshot.bids[0].price, 99);
    assert_eq!(snapshot.bids[0].quantity, 4);
    assert!(snapshot.asks.is_empty());
    assert_eq!(engine.get_last_traded_price(), Some(99));
}

#[test]
fn test_cancel_existing_order() {
    let mut engine = setup();
    let o = order(OrderType::Limit, OrderSide::Buy, 100, 10, 1);
    engine.add_order(o.clone());

    let (result, deltas) = engine.cancel_order(o.id);
    assert!(result.is_ok());
    assert_eq!(result.unwrap().id, o.id);

    assert_eq!(deltas.len(), 1);
    assert_eq!(deltas[0].action, DeltaAction::Delete);
    assert_eq!(deltas[0].side, OrderSide::Buy);
    assert_eq!(deltas[0].price, 100);
    assert_eq!(deltas[0].new_quantity, 0);

    let snapshot = engine.get_order_book_snapshot();
    assert!(snapshot.bids.is_empty());
}

#[test]
fn test_cancel_non_existing_order() {
    let mut engine = setup();
    let non_existent = Uuid::new_v4();
    let (result, deltas) = engine.cancel_order(non_existent.as_u128());
    assert!(result.is_err());
    assert_eq!(result.unwrap_err(), CancelError::NotFound);
    assert_eq!(
        matching_engine::keys::not_found_message(&non_existent.to_string()),
        format!(
            "[Engine] Order {} not found for cancellation.",
            non_existent
        )
    );
    assert!(deltas.is_empty());
}

#[test]
fn test_cancel_order_after_partial_fill() {
    let mut engine = setup();
    let sell_order = order(OrderType::Limit, OrderSide::Sell, 100, 15, 1);
    engine.add_order(sell_order.clone());

    let buy_order = order(OrderType::Limit, OrderSide::Buy, 100, 10, 2);
    engine.add_order(buy_order.clone()); // This will partially fill sell_order

    let (result, deltas) = engine.cancel_order(sell_order.id);
    assert!(result.is_ok());
    assert_eq!(result.unwrap().id, sell_order.id); // Should return the original order

    assert_eq!(deltas.len(), 1);
    assert_eq!(deltas[0].action, DeltaAction::Delete);
    assert_eq!(deltas[0].side, OrderSide::Sell);
    assert_eq!(deltas[0].price, 100);
    assert_eq!(deltas[0].new_quantity, 0);

    let snapshot = engine.get_order_book_snapshot();
    assert!(snapshot.asks.is_empty());
}

#[test]
fn test_order_book_snapshot() {
    let mut engine = setup();
    engine.add_order(order(OrderType::Limit, OrderSide::Buy, 100, 10, 1));
    engine.add_order(order(OrderType::Limit, OrderSide::Buy, 99, 5, 2));
    engine.add_order(order(OrderType::Limit, OrderSide::Sell, 101, 12, 3));
    engine.add_order(order(OrderType::Limit, OrderSide::Sell, 102, 8, 4));

    let snapshot = engine.get_order_book_snapshot();
    assert_eq!(snapshot.symbol, "TEST_SYMBOL");
    assert_eq!(snapshot.bids.len(), 2);
    assert_eq!(snapshot.bids[0].price, 100);
    assert_eq!(snapshot.bids[0].quantity, 10);
    assert_eq!(snapshot.bids[1].price, 99);
    assert_eq!(snapshot.bids[1].quantity, 5);

    assert_eq!(snapshot.asks.len(), 2);
    assert_eq!(snapshot.asks[0].price, 101);
    assert_eq!(snapshot.asks[0].quantity, 12);
    assert_eq!(snapshot.asks[1].price, 102);
    assert_eq!(snapshot.asks[1].quantity, 8);
    assert_eq!(snapshot.last_traded_price, None);
}

#[test]
fn test_ltp_update() {
    let mut engine = setup();
    let sell_order = order(OrderType::Limit, OrderSide::Sell, 100, 10, 1);
    engine.add_order(sell_order.clone());

    let buy_order = order(OrderType::Limit, OrderSide::Buy, 100, 10, 2);
    engine.add_order(buy_order.clone());

    assert_eq!(engine.get_last_traded_price(), Some(100));
}

#[test]
fn test_market_order_no_liquidity() {
    let mut engine = setup();
    let buy_market_order = order(OrderType::Market, OrderSide::Buy, 0, 10, 1);
    let (trades, deltas) = engine.add_order(buy_market_order.clone());

    assert!(trades.is_empty());
    assert!(deltas.is_empty());
    assert_eq!(engine.get_last_traded_price(), None);
}

#[test]
fn test_limit_order_zero_quantity() {
    let mut engine = setup();
    let o = order(OrderType::Limit, OrderSide::Buy, 100, 0, 1);
    let (trades, deltas) = engine.add_order(o.clone());

    assert!(trades.is_empty());
    assert!(deltas.is_empty());
    let snapshot = engine.get_order_book_snapshot();
    assert!(snapshot.bids.is_empty());
}

#[test]
fn test_market_order_zero_quantity() {
    let mut engine = setup();
    let o = order(OrderType::Market, OrderSide::Buy, 0, 0, 1);
    let (trades, deltas) = engine.add_order(o.clone());

    assert!(trades.is_empty());
    assert!(deltas.is_empty());
}

#[test]
fn test_multiple_price_levels_matching() {
    let mut engine = setup();
    engine.add_order(order(OrderType::Limit, OrderSide::Sell, 100, 5, 1));
    engine.add_order(order(OrderType::Limit, OrderSide::Sell, 101, 5, 2));
    engine.add_order(order(OrderType::Limit, OrderSide::Sell, 102, 5, 3));

    // Buy order that crosses multiple levels
    let buy_order = order(OrderType::Limit, OrderSide::Buy, 102, 12, 4);
    let (trades, deltas) = engine.add_order(buy_order.clone());

    assert_eq!(trades.len(), 3);
    assert_eq!(trades[0].price, 100);
    assert_eq!(trades[0].quantity, 5);
    assert_eq!(trades[1].price, 101);
    assert_eq!(trades[1].quantity, 5);
    assert_eq!(trades[2].price, 102);
    assert_eq!(trades[2].quantity, 2);

    assert_eq!(deltas.len(), 3);
    // Deltas for deleted sell orders
    assert_eq!(deltas[0].action, DeltaAction::Delete);
    assert_eq!(deltas[0].price, 100);
    assert_eq!(deltas[1].action, DeltaAction::Delete);
    assert_eq!(deltas[1].price, 101);
    assert_eq!(deltas[2].action, DeltaAction::Update); // Partial fill at 102
    assert_eq!(deltas[2].price, 102);
    assert_eq!(deltas[2].new_quantity, 3); // 5 - 2 = 3 remaining

    let snapshot = engine.get_order_book_snapshot();
    assert_eq!(snapshot.asks.len(), 1);
    assert_eq!(snapshot.asks[0].price, 102);
    assert_eq!(snapshot.asks[0].quantity, 3);
    assert!(snapshot.bids.is_empty());
    assert_eq!(engine.get_last_traded_price(), Some(102));
}

#[test]
fn test_complex_scenario_add_cancel_match() {
    let mut engine = setup();

    let sell_100_q10 = order(OrderType::Limit, OrderSide::Sell, 100, 10, 1);
    let sell_101_q5 = order(OrderType::Limit, OrderSide::Sell, 101, 5, 2);
    let buy_99_q15 = order(OrderType::Limit, OrderSide::Buy, 99, 15, 3);

    engine.add_order(sell_100_q10.clone());
    engine.add_order(sell_101_q5.clone());
    engine.add_order(buy_99_q15.clone());

    // Snapshot after initial orders
    let snapshot_1 = engine.get_order_book_snapshot();
    assert_eq!(snapshot_1.bids.len(), 1);
    assert_eq!(snapshot_1.bids[0].price, 99);
    assert_eq!(snapshot_1.bids[0].quantity, 15);
    assert_eq!(snapshot_1.asks.len(), 2);
    assert_eq!(snapshot_1.asks[0].price, 100);
    assert_eq!(snapshot_1.asks[0].quantity, 10);
    assert_eq!(snapshot_1.asks[1].price, 101);
    assert_eq!(snapshot_1.asks[1].quantity, 5);

    // Cancel sell_100_q10
    let (cancel_result, cancel_deltas) = engine.cancel_order(sell_100_q10.id);
    assert!(cancel_result.is_ok());
    assert_eq!(cancel_deltas.len(), 1);
    assert_eq!(cancel_deltas[0].action, DeltaAction::Delete);
    assert_eq!(cancel_deltas[0].price, 100);

    // Snapshot after cancellation
    let snapshot_2 = engine.get_order_book_snapshot();
    assert_eq!(snapshot_2.asks.len(), 1);
    assert_eq!(snapshot_2.asks[0].price, 101);
    assert_eq!(snapshot_2.asks[0].quantity, 5);

    // Add a new buy order that matches sell_101_q5
    let buy_101_q5 = order(OrderType::Limit, OrderSide::Buy, 101, 5, 4);
    let (trades, match_deltas) = engine.add_order(buy_101_q5.clone());

    assert_eq!(trades.len(), 1);
    assert_eq!(trades[0].price, 101);
    assert_eq!(trades[0].quantity, 5);

    assert_eq!(match_deltas.len(), 1);
    assert_eq!(match_deltas[0].action, DeltaAction::Delete);
    assert_eq!(match_deltas[0].price, 101);

    // Final snapshot
    let snapshot_3 = engine.get_order_book_snapshot();
    assert!(snapshot_3.asks.is_empty());
    assert_eq!(snapshot_3.bids.len(), 1);
    assert_eq!(snapshot_3.bids[0].price, 99);
    assert_eq!(snapshot_3.bids[0].quantity, 15);
    assert_eq!(engine.get_last_traded_price(), Some(101));
}

#[test]
fn test_order_id_uniqueness() {
    let mut engine = setup();
    let order1 = order(OrderType::Limit, OrderSide::Buy, 100, 10, 1);
    let order2 = order(OrderType::Limit, OrderSide::Buy, 100, 10, 2);

    engine.add_order(order1.clone());
    engine.add_order(order2.clone());

    let snapshot = engine.get_order_book_snapshot();
    assert_eq!(snapshot.bids.len(), 1); // Should still be one price level
    assert_eq!(snapshot.bids[0].quantity, 20); // Total quantity should be 20
}

#[test]
fn test_price_level_order_priority_fifo() {
    let mut engine = setup();
    let t0 = chrono::Utc::now().timestamp_millis();
    let order1 = Order {
        id: Uuid::new_v4().as_u128(),
        user_id: 1,
        order_type: OrderType::Limit,
        side: OrderSide::Sell,
        price: 100,
        quantity: 5,
        timestamp: t0,
    };
    // Ensure different timestamps
    let order2 = Order {
        id: Uuid::new_v4().as_u128(),
        user_id: 2,
        order_type: OrderType::Limit,
        side: OrderSide::Sell,
        price: 100,
        quantity: 5,
        timestamp: t0 + 2,
    };
    engine.add_order(order1.clone());
    engine.add_order(order2.clone());

    let buy_order = order(OrderType::Limit, OrderSide::Buy, 100, 7, 3);
    let (trades, _) = engine.add_order(buy_order.clone());

    assert_eq!(trades.len(), 2);
    assert_eq!(trades[0].maker_order_id, order1.id); // order1 should be filled first (FIFO)
    assert_eq!(trades[0].quantity, 5);
    assert_eq!(trades[1].maker_order_id, order2.id);
    assert_eq!(trades[1].quantity, 2); // Remaining 2 from order2
}

#[test]
fn test_market_order_with_insufficient_liquidity() {
    let mut engine = setup();
    let sell_order = order(OrderType::Limit, OrderSide::Sell, 100, 5, 1);
    engine.add_order(sell_order.clone());

    let buy_market_order = order(OrderType::Market, OrderSide::Buy, 0, 10, 2); // More than available liquidity
    let (trades, deltas) = engine.add_order(buy_market_order.clone());

    assert_eq!(trades.len(), 1);
    assert_eq!(trades[0].price, 100);
    assert_eq!(trades[0].quantity, 5); // Only 5 filled

    assert_eq!(deltas.len(), 1);
    assert_eq!(deltas[0].action, DeltaAction::Delete);
    assert_eq!(deltas[0].side, OrderSide::Sell);
    assert_eq!(deltas[0].price, 100);
    assert_eq!(deltas[0].new_quantity, 0);

    let snapshot = engine.get_order_book_snapshot();
    assert!(snapshot.asks.is_empty());
    assert_eq!(engine.get_last_traded_price(), Some(100));
}

#[test]
fn test_limit_order_crosses_spread_and_rests() {
    let mut engine = setup();
    let sell_order = order(OrderType::Limit, OrderSide::Sell, 105, 10, 1);
    engine.add_order(sell_order.clone());

    // Price higher than existing sell
    let buy_order = order(OrderType::Limit, OrderSide::Buy, 110, 15, 2);
    let (trades, deltas) = engine.add_order(buy_order.clone());

    assert_eq!(trades.len(), 1);
    assert_eq!(trades[0].price, 105);
    assert_eq!(trades[0].quantity, 10);

    assert_eq!(deltas.len(), 2);
    assert_eq!(deltas[0].action, DeltaAction::Delete);
    assert_eq!(deltas[0].side, OrderSide::Sell);
    assert_eq!(deltas[0].price, 105);

    assert_eq!(deltas[1].action, DeltaAction::New); // Remaining buy order rests
    assert_eq!(deltas[1].side, OrderSide::Buy);
    assert_eq!(deltas[1].price, 110);
    assert_eq!(deltas[1].new_quantity, 5);

    let snapshot = engine.get_order_book_snapshot();
    assert_eq!(snapshot.bids.len(), 1);
    assert_eq!(snapshot.bids[0].price, 110);
    assert_eq!(snapshot.bids[0].quantity, 5);
    assert!(snapshot.asks.is_empty());
    assert_eq!(engine.get_last_traded_price(), Some(105));
}

#[test]
fn test_inverted_order_book_scenario() {
    let mut engine = setup();

    // Add a sell order at 50010
    let sell_order = order(OrderType::Limit, OrderSide::Sell, 50010, 10, 1);
    engine.add_order(sell_order.clone());

    // Add a buy order at 50050
    let buy_order = order(OrderType::Limit, OrderSide::Buy, 50050, 10, 2);
    let (trades, _deltas) = engine.add_order(buy_order.clone());

    // Expect a trade to occur and the order book to be empty
    assert_eq!(trades.len(), 1);
    assert_eq!(trades[0].price, 50010); // Trade should occur at the sell order's price
    assert_eq!(trades[0].quantity, 10);

    let snapshot = engine.get_order_book_snapshot();
    assert!(snapshot.bids.is_empty());
    assert!(snapshot.asks.is_empty());
}

#[test]
fn test_order_book_empty_after_all_matches() {
    let mut engine = setup();
    let sell_order = order(OrderType::Limit, OrderSide::Sell, 100, 10, 1);
    let buy_order = order(OrderType::Limit, OrderSide::Buy, 100, 10, 2);

    engine.add_order(sell_order.clone());
    engine.add_order(buy_order.clone());

    let snapshot = engine.get_order_book_snapshot();
    assert!(snapshot.bids.is_empty());
    assert!(snapshot.asks.is_empty());
}

#[test]
fn matching_engine_tests_test_order_book_empty_after_all_matches() {
    let mut engine = setup();
    let sell_order = order(OrderType::Limit, OrderSide::Sell, 100, 10, 1);
    let buy_order = order(OrderType::Limit, OrderSide::Buy, 100, 10, 2);

    engine.add_order(sell_order.clone());
    engine.add_order(buy_order.clone());

    let snapshot = engine.get_order_book_snapshot();
    assert!(snapshot.bids.is_empty());
    assert!(snapshot.asks.is_empty());
}

#[test]
fn test_cancel_order_updates_total_quantity() {
    let mut engine = setup();
    let order1 = order(OrderType::Limit, OrderSide::Buy, 100, 10, 1);
    let order2 = order(OrderType::Limit, OrderSide::Buy, 100, 5, 2);
    engine.add_order(order1.clone());
    engine.add_order(order2.clone());

    let snapshot_before = engine.get_order_book_snapshot();
    assert_eq!(snapshot_before.bids[0].quantity, 15);

    engine.cancel_order(order1.id);

    let snapshot_after = engine.get_order_book_snapshot();
    assert_eq!(snapshot_after.bids[0].quantity, 5);
}

#[test]
fn matching_engine_tests_test_cancel_order_updates_total_quantity() {
    let mut engine = setup();
    let order1 = order(OrderType::Limit, OrderSide::Buy, 100, 10, 1);
    let order2 = order(OrderType::Limit, OrderSide::Buy, 100, 5, 2);
    engine.add_order(order1.clone());
    engine.add_order(order2.clone());

    let snapshot_before = engine.get_order_book_snapshot();
    assert_eq!(snapshot_before.bids[0].quantity, 15);

    engine.cancel_order(order1.id);

    let snapshot_after = engine.get_order_book_snapshot();
    assert_eq!(snapshot_after.bids[0].quantity, 5);
}

#[test]
fn test_market_order_fills_at_best_available_price() {
    let mut engine = setup();
    engine.add_order(order(OrderType::Limit, OrderSide::Sell, 102, 5, 1));
    engine.add_order(order(OrderType::Limit, OrderSide::Sell, 100, 5, 2)); // Best ask

    let buy_market_order = order(OrderType::Market, OrderSide::Buy, 0, 5, 3);
    let (trades, _) = engine.add_order(buy_market_order.clone());

    assert_eq!(trades.len(), 1);
    assert_eq!(trades[0].price, 100); // Should fill at 100, not 102
    assert_eq!(trades[0].quantity, 5);
}

#[test]
fn matching_engine_tests_test_market_order_fills_at_best_available_price() {
    let mut engine = setup();
    engine.add_order(order(OrderType::Limit, OrderSide::Sell, 102, 5, 1));
    engine.add_order(order(OrderType::Limit, OrderSide::Sell, 100, 5, 2)); // Best ask

    let buy_market_order = order(OrderType::Market, OrderSide::Buy, 0, 5, 3);
    let (trades, _) = engine.add_order(buy_market_order.clone());

    assert_eq!(trades.len(), 1);
    assert_eq!(trades[0].price, 100); // Should fill at 100, not 102
    assert_eq!(trades[0].quantity, 5);
}

#[test]
fn test_limit_order_does_not_match_if_outside_spread() {
    let mut engine = setup();
    engine.add_order(order(OrderType::Limit, OrderSide::Sell, 105, 10, 1));
    engine.add_order(order(OrderType::Limit, OrderSide::Buy, 95, 10, 2));

    // Between 95 and 105, but no matching sell at 100
    let buy_order_no_match = order(OrderType::Limit, OrderSide::Buy, 100, 5, 3);
    let (trades, deltas) = engine.add_order(buy_order_no_match.clone());

    assert!(trades.is_empty());
    assert_eq!(deltas.len(), 1);
    assert_eq!(deltas[0].action, DeltaAction::New);
    assert_eq!(deltas[0].side, OrderSide::Buy);
    assert_eq!(deltas[0].price, 100);
    assert_eq!(deltas[0].new_quantity, 5);

    let snapshot = engine.get_order_book_snapshot();
    assert_eq!(snapshot.bids.len(), 2);
    assert_eq!(snapshot.bids[0].price, 100);
    assert_eq!(snapshot.bids[0].quantity, 5);
    assert_eq!(snapshot.bids[1].price, 95);
    assert_eq!(snapshot.bids[1].quantity, 10);
    assert_eq!(snapshot.asks.len(), 1);
    assert_eq!(snapshot.asks[0].price, 105);
    assert_eq!(snapshot.asks[0].quantity, 10);
}

#[test]
fn matching_engine_tests_test_limit_order_does_not_match_if_outside_spread() {
    let mut engine = setup();
    engine.add_order(order(OrderType::Limit, OrderSide::Sell, 105, 10, 1));
    engine.add_order(order(OrderType::Limit, OrderSide::Buy, 95, 10, 2));

    // Between 95 and 105, but no matching sell at 100
    let buy_order_no_match = order(OrderType::Limit, OrderSide::Buy, 100, 5, 3);
    let (trades, deltas) = engine.add_order(buy_order_no_match.clone());

    assert!(trades.is_empty());
    assert_eq!(deltas.len(), 1);
    assert_eq!(deltas[0].action, DeltaAction::New);
    assert_eq!(deltas[0].side, OrderSide::Buy);
    assert_eq!(deltas[0].price, 100);
    assert_eq!(deltas[0].new_quantity, 5);

    let snapshot = engine.get_order_book_snapshot();
    assert_eq!(snapshot.bids.len(), 2);
    assert_eq!(snapshot.bids[0].price, 100);
    assert_eq!(snapshot.bids[0].quantity, 5);
    assert_eq!(snapshot.bids[1].price, 95);
    assert_eq!(snapshot.bids[1].quantity, 10);
    assert_eq!(snapshot.asks.len(), 1);
    assert_eq!(snapshot.asks[0].price, 105);
    assert_eq!(snapshot.asks[0].quantity, 10);
}
