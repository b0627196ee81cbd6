use matching_engine::{
    DeltaAction, MatchingEngine, Order, OrderBookDelta, OrderSide, OrderType,
};
use std::collections::BTreeMap;
use uuid::Uuid;

fn setup() -> MatchingEngine {
    MatchingEngine::new("LAW_SYMBOL".to_string())
}

fn order(
    order_type: OrderType,
    side: OrderSide,
    price: u64,
    quantity: u64,
    user_id: u64,
) -> Order {
    Order {
        id: Uuid::new_v4().as_u128(),
        user_id,
        order_type,
        side,
        price,
        quantity,
        timestamp: chrono::Utc::now().timestamp_millis(),
    }
}

/// The resting value of one side of a snapshot: aggregate quantity times
/// price, summed over its levels.
fn snapshot_side_value(levels: &[matching_engine::OrderBookLevel]) -> u128 {
    levels.iter().map(|l| l.quantity * (l.price as u128)).sum()
}

#[test]
fn value_conservation_on_a_sweep() {
    let mut engine = setup();
    engine.add_order(order(OrderType::Limit, OrderSide::Sell, 100, 5, 1));
    engine.add_order(order(OrderType::Limit, OrderSide::Sell, 101, 5, 2));
    engine.add_order(order(OrderType::Limit, OrderSide::Sell, 103, 4, 3));

    let before = engine.get_order_book_snapshot();
    let ask_value_before = snapshot_side_value(&before.asks);

    let (trades, _) = engine.add_order(order(OrderType::Limit, OrderSide::Buy, 101, 8, 4));

    let after = engine.get_order_book_snapshot();
    let ask_value_after = snapshot_side_value(&after.asks);

    let traded_value: u128 = trades
        .iter()
        .map(|t| (t.quantity as u128) * (t.price as u128))
        .sum();
    // 5*100 + 3*101 traded
    assert_eq!(traded_value, 803);
    assert_eq!(ask_value_before, ask_value_after + traded_value);
    // the buy was fully filled, so the bid side is untouched
    assert!(after.bids.is_empty());
}

#[test]
fn value_gain_of_a_resting_residual() {
    let mut engine = setup();
    engine.add_order(order(OrderType::Limit, OrderSide::Sell, 100, 5, 1));

    let before = engine.get_order_book_snapshot();
    let bid_value_before = snapshot_side_value(&before.bids);

    let (trades, _) = engine.add_order(order(OrderType::Limit, OrderSide::Buy, 102, 8, 2));
    assert_eq!(trades.len(), 1);

    let after = engine.get_order_book_snapshot();
    let bid_value_after = snapshot_side_value(&after.bids);
    // residual 3 rests at 102
    assert_eq!(bid_value_after, bid_value_before + 3 * 102);
}

/// Replay a delta stream the way a downstream consumer of the delta
/// channel would: keep one aggregate per price and side.
fn replay(
    bids: &mut BTreeMap<u64, u128>,
    asks: &mut BTreeMap<u64, u128>,
    deltas: &[OrderBookDelta],
) {
    for d in deltas {
        let m = if d.side == OrderSide::Buy { &mut *bids } else { &mut *asks };
        match d.action {
            DeltaAction::Delete => {
                m.remove(&d.price);
            }
            DeltaAction::New | DeltaAction::Update => {
                m.insert(d.price, d.new_quantity);
            }
        }
    }
}

#[test]
fn delta_stream_rebuilds_the_aggregate_book() {
    let mut engine = setup();
    let mut bids: BTreeMap<u64, u128> = BTreeMap::new();
    let mut asks: BTreeMap<u64, u128> = BTreeMap::new();

    let resting_sell = order(OrderType::Limit, OrderSide::Sell, 105, 9, 1);
    let resting_buy = order(OrderType::Limit, OrderSide::Buy, 95, 4, 2);

    let steps: Vec<Order> = vec![
        order(OrderType::Limit, OrderSide::Sell, 100, 5, 1),
        resting_sell.clone(),
        order(OrderType::Limit, OrderSide::Buy, 99, 7, 2),
        resting_buy.clone(),
        order(OrderType::Limit, OrderSide::Buy, 100, 8, 3),
        order(OrderType::Market, OrderSide::Sell, 0, 6, 4),
        order(OrderType::Limit, OrderSide::Sell, 96, 2, 5),
    ];
    for o in steps {
        let (_, deltas) = engine.add_order(o);
        replay(&mut bids, &mut asks, &deltas);
    }
    let (_, cancel_deltas) = engine.cancel_order(resting_sell.id);
    replay(&mut bids, &mut asks, &cancel_deltas);

    let snapshot = engine.get_order_book_snapshot();
    let snap_bids: Vec<(u64, u128)> =
        snapshot.bids.iter().map(|l| (l.price, l.quantity)).collect();
    let snap_asks: Vec<(u64, u128)> =
        snapshot.asks.iter().map(|l| (l.price, l.quantity)).collect();
    // bids best-first means highest price first
    let replayed_bids: Vec<(u64, u128)> = bids.iter().rev().map(|(p, q)| (*p, *q)).collect();
    let replayed_asks: Vec<(u64, u128)> = asks.iter().map(|(p, q)| (*p, *q)).collect();
    assert_eq!(snap_bids, replayed_bids);
    assert_eq!(snap_asks, replayed_asks);
}

#[test]
fn snapshot_is_idempotent() {
    let mut engine = setup();
    engine.add_order(order(OrderType::Limit, OrderSide::Buy, 99, 3, 1));
    engine.add_order(order(OrderType::Limit, OrderSide::Sell, 101, 4, 2));
    engine.add_order(order(OrderType::Limit, OrderSide::Buy, 101, 1, 3));

    let s1 = engine.get_order_book_snapshot();
    let s2 = engine.get_order_book_snapshot();
    assert_eq!(s1.symbol, s2.symbol);
    assert_eq!(s1.bids, s2.bids);
    assert_eq!(s1.asks, s2.asks);
    assert_eq!(s1.last_traded_price, s2.last_traded_price);

    // and taking snapshots changed no observable state
    let s3 = engine.get_order_book_snapshot();
    assert_eq!(s2.bids, s3.bids);
    assert_eq!(s2.asks, s3.asks);
    assert_eq!(engine.get_last_traded_price(), Some(101));
}

#[test]
fn snapshot_sides_are_sorted_best_first() {
    let mut engine = setup();
    let prices: Vec<u64> = vec![104, 101, 107, 103, 106];
    for (i, p) in prices.iter().enumerate() {
        engine.add_order(order(OrderType::Limit, OrderSide::Sell, *p, 2, i as u64));
    }
    let bid_prices: Vec<u64> = vec![93, 99, 91, 96];
    for (i, p) in bid_prices.iter().enumerate() {
        engine.add_order(order(OrderType::Limit, OrderSide::Buy, *p, 2, i as u64));
    }
    let snapshot = engine.get_order_book_snapshot();
    for w in snapshot.asks.windows(2) {
        assert!(w[0].price < w[1].price);
    }
    for w in snapshot.bids.windows(2) {
        assert!(w[0].price > w[1].price);
    }
    for l in snapshot.asks.iter().chain(snapshot.bids.iter()) {
        assert!(l.quantity > 0);
        assert!(l.price > 0);
    }
    // best bid strictly below best ask
    assert!(snapshot.bids[0].price < snapshot.asks[0].price);
}

#[test]
fn trades_are_positive_and_cross_sided() {
    let mut engine = setup();
    let maker1 = order(OrderType::Limit, OrderSide::Sell, 100, 4, 1);
    let maker2 = order(OrderType::Limit, OrderSide::Sell, 102, 4, 2);
    engine.add_order(maker1.clone());
    engine.add_order(maker2.clone());

    let taker = order(OrderType::Limit, OrderSide::Buy, 102, 6, 3);
    let (trades, _) = engine.add_order(taker.clone());
    assert_eq!(trades.len(), 2);
    for t in &trades {
        assert!(t.quantity > 0);
        assert!(t.price > 0);
        assert_eq!(t.taker_order_id, taker.id);
        // every maker is one of the resting sell orders, never the taker
        assert!(t.maker_order_id == maker1.id || t.maker_order_id == maker2.id);
        assert_ne!(t.maker_order_id, t.taker_order_id);
    }
}

#[test]
fn cancel_twice_reports_not_found() {
    let mut engine = setup();
    let o = order(OrderType::Limit, OrderSide::Sell, 100, 5, 1);
    engine.add_order(o.clone());
    let (first, _) = engine.cancel_order(o.id);
    assert!(first.is_ok());
    let removed = first.unwrap();
    assert_eq!(removed.quantity, 5);
    assert_eq!(removed.user_id, 1);
    let (second, deltas) = engine.cancel_order(o.id);
    assert_eq!(second.unwrap_err(), matching_engine::CancelError::NotFound);
    assert!(deltas.is_empty());
}

#[test]
fn contains_order_tracks_resting_state() {
    let mut engine = setup();
    let resting = order(OrderType::Limit, OrderSide::Sell, 100, 5, 1);
    assert!(!engine.contains_order(resting.id));
    engine.add_order(resting.clone());
    assert!(engine.contains_order(resting.id));

    // a fully filled taker never rests
    let taker = order(OrderType::Limit, OrderSide::Buy, 100, 5, 2);
    engine.add_order(taker.clone());
    assert!(!engine.contains_order(resting.id));
    assert!(!engine.contains_order(taker.id));

    // a market order never rests either
    engine.add_order(order(OrderType::Limit, OrderSide::Sell, 100, 5, 1));
    let market = order(OrderType::Market, OrderSide::Buy, 0, 9, 3);
    engine.add_order(market.clone());
    assert!(!engine.contains_order(market.id));
}

#[test]
fn empty_book_snapshot() {
    let engine = setup();
    let snapshot = engine.get_order_book_snapshot();
    assert_eq!(snapshot.symbol, "LAW_SYMBOL");
    assert!(snapshot.bids.is_empty());
    assert!(snapshot.asks.is_empty());
    assert_eq!(snapshot.last_traded_price, None);
    assert_eq!(engine.get_last_traded_price(), None);
}

#[test]
fn trade_record_carries_given_fields() {
    let t = matching_engine::Trade::new(7, 9, 101, 3);
    assert_eq!(t.taker_order_id, 7);
    assert_eq!(t.maker_order_id, 9);
    assert_eq!(t.price, 101);
    assert_eq!(t.quantity, 3);
}
