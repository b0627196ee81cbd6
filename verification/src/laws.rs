//! Laws the matching engine obeys, stated and proved over the model in
//! [`crate::model`]: price-time priority, value conservation, and the
//! faithfulness of the emitted delta stream.

use vstd::prelude::*;
use crate::types::{DeltaAction, Order, OrderSide, OrderType};
use crate::model::{
    BookModel, DeltaModel, Fill, LevelModel, add_order_result, better_price,
    cancel_from_side, crosses, find_pos, insert_resting, lemma_find_pos, lemma_level_pos_of_id,
    lemma_match_levels,
    lemma_match_orders, lemma_order_pos_of_id, lemma_side_tail, lemma_sum_push,
    level_pos_of_id, levels_have_id, ltp_after, match_levels, match_orders,
    order_pos_of_id, side_ids_distinct, side_levels, side_sorted, side_wf,
    sum_quants, with_side,
};

verus! {

/// Price-time priority within one price level: when a taker consumes a
/// level's FIFO, the k-th fill is against the k-th resting order — so an
/// earlier-admitted order at the level is never matched after a later
/// one — and every maker except possibly the last one touched is filled
/// completely.
pub proof fn lemma_level_fifo(taker_q: int, orders: Seq<Order>, price: u64)
    requires
        taker_q >= 0,
        forall|j: int| 0 <= j < orders.len() ==> (#[trigger] orders[j]).quantity > 0,
    ensures
        ({
            let lm = match_orders(taker_q, orders, price);
            &&& lm.fills.len() <= orders.len()
            &&& forall|k: int|
                0 <= k < lm.fills.len() ==> (#[trigger] lm.fills[k]).maker_id == orders[k].id
            &&& forall|k: int|
                0 <= k < lm.fills.len() - 1 ==> (#[trigger] lm.fills[k]).quantity
                    == orders[k].quantity
        }),
{
    lemma_match_orders(taker_q, orders, price);
}

/// The traded value of a sequence of fills: quantity times price, summed.
pub open spec fn fills_value(fills: Seq<Fill>) -> int
    decreases fills.len(),
{
    if fills.len() == 0 {
        0
    } else {
        fills[0].quantity * fills[0].price + fills_value(fills.drop_first())
    }
}

/// The resting value of one level: its aggregate quantity at its price.
pub open spec fn level_value(l: LevelModel) -> int {
    sum_quants(l.orders) * l.price
}

/// The resting value of one side of the book.
pub open spec fn side_value(ls: Seq<LevelModel>) -> int
    decreases ls.len(),
{
    if ls.len() == 0 {
        0
    } else {
        level_value(ls[0]) + side_value(ls.drop_first())
    }
}

pub proof fn lemma_fills_value_add(a: Seq<Fill>, b: Seq<Fill>)
    ensures
        fills_value(a + b) == fills_value(a) + fills_value(b),
    decreases a.len(),
{
    if a.len() == 0 {
        assert(a + b =~= b);
    } else {
        lemma_fills_value_add(a.drop_first(), b);
        assert((a + b).drop_first() =~= a.drop_first() + b);
        assert((a + b)[0] == a[0]);
    }
}

/// Within one level, the traded value equals the consumed quantity at the
/// level's price.
pub proof fn lemma_match_orders_value(taker_q: int, orders: Seq<Order>, price: u64)
    requires
        taker_q >= 0,
        forall|j: int| 0 <= j < orders.len() ==> (#[trigger] orders[j]).quantity > 0,
    ensures
        ({
            let lm = match_orders(taker_q, orders, price);
            fills_value(lm.fills) == (sum_quants(orders) - sum_quants(lm.rest)) * price
        }),
    decreases orders.len(),
{
    let lm = match_orders(taker_q, orders, price);
    if taker_q <= 0 || orders.len() == 0 {
        assert((sum_quants(orders) - sum_quants(lm.rest)) * price == 0) by (nonlinear_arith)
            requires
                sum_quants(orders) == sum_quants(lm.rest),
        ;
    } else {
        let m = orders[0];
        if taker_q < m.quantity {
            let reduced = Order { quantity: (m.quantity - taker_q) as u64, ..m };
            crate::model::lemma_sum_update(orders, 0, reduced);
            assert(fills_value(lm.fills) == taker_q * price + fills_value(
                lm.fills.drop_first(),
            ));
            assert(lm.fills.drop_first() =~= Seq::<Fill>::empty());
            assert(fills_value(Seq::<Fill>::empty()) == 0);
            assert((sum_quants(orders) - sum_quants(lm.rest)) * price == taker_q * price)
                by (nonlinear_arith)
                requires
                    sum_quants(lm.rest) == sum_quants(orders) - taker_q,
            ;
        } else {
            let rest1 = orders.drop_first();
            lemma_match_orders_value(taker_q - m.quantity, rest1, price);
            let sub = match_orders(taker_q - m.quantity, rest1, price);
            let f0 = Fill { maker_id: m.id, price: price, quantity: m.quantity as int };
            lemma_fills_value_add(seq![f0], sub.fills);
            assert(fills_value(seq![f0]) == m.quantity * price + fills_value(
                seq![f0].drop_first(),
            ));
            assert(seq![f0].drop_first() =~= Seq::<Fill>::empty());
            assert(fills_value(Seq::<Fill>::empty()) == 0);
            assert(sum_quants(orders) == m.quantity + sum_quants(rest1));
            assert((m.quantity + (sum_quants(rest1) - sum_quants(sub.rest))) * price == m.quantity
                * price + (sum_quants(rest1) - sum_quants(sub.rest)) * price) by (nonlinear_arith);
        }
    }
}

/// Across the swept levels, the traded value equals the decrease of the
/// maker side's resting value.
pub proof fn lemma_match_levels_value(
    ts: OrderSide,
    limit: Option<u64>,
    q: int,
    levels: Seq<LevelModel>,
)
    requires
        q >= 0,
        side_wf(ts.spec_opposite(), levels),
        side_ids_distinct(levels),
    ensures
        ({
            let sm = match_levels(ts, limit, q, levels);
            side_value(levels) == side_value(sm.levels) + fills_value(sm.fills)
        }),
    decreases levels.len(),
{
    let sm = match_levels(ts, limit, q, levels);
    let mside = ts.spec_opposite();
    if q <= 0 || levels.len() == 0 || !crosses(ts, limit, levels[0].price) {
    } else {
        let l0 = levels[0];
        let lm = match_orders(q, l0.orders, l0.price);
        lemma_match_orders(q, l0.orders, l0.price);
        lemma_match_orders_value(q, l0.orders, l0.price);
        if lm.rest.len() == 0 {
            let tail = levels.drop_first();
            lemma_side_tail(mside, levels);
            lemma_match_levels_value(ts, limit, lm.taker_left, tail);
            let sub = match_levels(ts, limit, lm.taker_left, tail);
            lemma_fills_value_add(lm.fills, sub.fills);
            assert(sum_quants(lm.rest) == 0);
            assert(fills_value(lm.fills) == sum_quants(l0.orders) * l0.price) by (nonlinear_arith)
                requires
                    fills_value(lm.fills) == (sum_quants(l0.orders) - 0) * l0.price,
            ;
        } else {
            let nl = LevelModel { price: l0.price, orders: lm.rest };
            assert(sm.levels == levels.update(0, nl));
            assert(sm.levels.drop_first() =~= levels.drop_first());
            assert(sm.levels[0] == nl);
            assert(side_value(sm.levels) == level_value(nl) + side_value(levels.drop_first()));
            assert(level_value(l0) == level_value(nl) + fills_value(lm.fills))
                by (nonlinear_arith)
                requires
                    level_value(l0) == sum_quants(l0.orders) * l0.price,
                    level_value(nl) == sum_quants(lm.rest) * l0.price,
                    fills_value(lm.fills) == (sum_quants(l0.orders) - sum_quants(lm.rest))
                        * l0.price,
            ;
        }
    }
}

pub proof fn lemma_side_value_update(ls: Seq<LevelModel>, i: int, nl: LevelModel)
    requires
        0 <= i < ls.len(),
    ensures
        side_value(ls.update(i, nl)) == side_value(ls) - level_value(ls[i]) + level_value(nl),
    decreases ls.len(),
{
    if i == 0 {
        assert(ls.update(0, nl).drop_first() =~= ls.drop_first());
        assert(ls.update(0, nl)[0] == nl);
    } else {
        lemma_side_value_update(ls.drop_first(), i - 1, nl);
        assert(ls.update(i, nl).drop_first() =~= ls.drop_first().update(i - 1, nl));
        assert(ls.update(i, nl)[0] == ls[0]);
    }
}

pub proof fn lemma_side_value_insert(ls: Seq<LevelModel>, i: int, nl: LevelModel)
    requires
        0 <= i <= ls.len(),
    ensures
        side_value(ls.insert(i, nl)) == side_value(ls) + level_value(nl),
    decreases ls.len(),
{
    ls.insert_ensures(i, nl);
    if i == 0 {
        assert(ls.insert(0, nl).drop_first() =~= ls);
        assert(ls.insert(0, nl)[0] == nl);
    } else {
        lemma_side_value_insert(ls.drop_first(), i - 1, nl);
        assert(ls.insert(i, nl).drop_first() =~= ls.drop_first().insert(i - 1, nl));
        assert(ls.insert(i, nl)[0] == ls[0]);
    }
}

/// Resting an order raises its own side's value by exactly the order's
/// quantity at its price.
pub proof fn lemma_insert_resting_value(side: OrderSide, levels: Seq<LevelModel>, order: Order)
    ensures
        ({
            let rr = insert_resting(side, levels, order);
            side_value(rr.levels) == side_value(levels) + order.quantity * order.price
        }),
{
    lemma_find_pos(side, levels, order.price);
    let i = find_pos(side, levels, order.price);
    let rr = insert_resting(side, levels, order);
    if i < levels.len() && levels[i].price == order.price {
        let nl = LevelModel { price: order.price, orders: levels[i].orders.push(order) };
        lemma_side_value_update(levels, i, nl);
        lemma_sum_push(levels[i].orders, order);
        assert(level_value(nl) == level_value(levels[i]) + order.quantity * order.price)
            by (nonlinear_arith)
            requires
                level_value(nl) == (sum_quants(levels[i].orders) + order.quantity) * order.price,
                level_value(levels[i]) == sum_quants(levels[i].orders) * order.price,
        ;
    } else {
        let nl = LevelModel { price: order.price, orders: seq![order] };
        lemma_side_value_insert(levels, i, nl);
        assert(sum_quants(nl.orders) == order.quantity) by {
            assert(nl.orders[0] == order);
            assert(sum_quants(Seq::<Order>::empty()) == 0);
            assert(nl.orders.drop_first() =~= Seq::<Order>::empty());
        }
    }
}

/// Value conservation for one admission: the traded value equals the
/// decrease of the opposing side's resting value, and the taker's own
/// side gains exactly its resting residual (zero for a market order or a
/// fully filled limit order).
pub proof fn lemma_add_order_value(pre: BookModel, order: Order)
    requires
        side_wf(OrderSide::Buy, pre.bids),
        side_wf(OrderSide::Sell, pre.asks),
        side_ids_distinct(pre.bids),
        side_ids_distinct(pre.asks),
    ensures
        ({
            let ar = add_order_result(pre, order);
            let opp = order.side.spec_opposite();
            let sm = match_levels(
                order.side,
                if order.order_type == OrderType::Limit {
                    Some(order.price)
                } else {
                    None
                },
                order.quantity as int,
                side_levels(pre, opp),
            );
            &&& side_value(side_levels(pre, opp)) == side_value(side_levels(ar.book, opp))
                + fills_value(ar.fills)
            &&& side_value(side_levels(ar.book, order.side)) == side_value(
                side_levels(pre, order.side),
            ) + (if order.order_type == OrderType::Limit && order.quantity > 0 && sm.taker_left
                > 0 {
                sm.taker_left * order.price
            } else {
                0
            })
        }),
{
    let ar = add_order_result(pre, order);
    let opp = order.side.spec_opposite();
    let limit = if order.order_type == OrderType::Limit {
        Some(order.price)
    } else {
        None
    };
    if order.quantity == 0 {
        assert(fills_value(ar.fills) == 0);
        assert(match_levels(order.side, limit, 0, side_levels(pre, opp)).taker_left == 0);
    } else {
        let sm = match_levels(order.side, limit, order.quantity as int, side_levels(pre, opp));
        assert(side_wf(opp, side_levels(pre, opp)) && side_ids_distinct(side_levels(pre, opp))) by {
            if opp == OrderSide::Buy {
                assert(side_levels(pre, opp) == pre.bids);
            } else {
                assert(side_levels(pre, opp) == pre.asks);
            }
        }
        lemma_match_levels_value(order.side, limit, order.quantity as int, side_levels(pre, opp));
        lemma_match_levels(order.side, limit, order.quantity as int, side_levels(pre, opp));
        let b1 = with_side(pre, opp, sm.levels);
        let b2 = BookModel { last_traded_price: ltp_after(sm.fills, pre.last_traded_price), ..b1 };
        assert(side_levels(b2, opp) == sm.levels);
        assert(side_levels(b2, order.side) == side_levels(pre, order.side));
        if order.order_type == OrderType::Limit && sm.taker_left > 0 {
            let rest_ord = Order { quantity: sm.taker_left as u64, ..order };
            lemma_insert_resting_value(order.side, side_levels(b2, order.side), rest_ord);
            let rr = insert_resting(order.side, side_levels(b2, order.side), rest_ord);
            assert(side_levels(ar.book, order.side) == rr.levels);
            assert(side_levels(ar.book, opp) == sm.levels) by {
                if opp == OrderSide::Buy {
                    assert(side_levels(ar.book, opp) == ar.book.bids);
                } else {
                    assert(side_levels(ar.book, opp) == ar.book.asks);
                }
            }
        } else {
            assert(side_levels(ar.book, opp) == sm.levels);
            assert(side_levels(ar.book, order.side) == side_levels(pre, order.side));
        }
    }
}


/// Aggregate view of one side: price level to total resting quantity.
pub open spec fn side_agg(ls: Seq<LevelModel>) -> Map<u64, int>
    decreases ls.len(),
{
    if ls.len() == 0 {
        Map::empty()
    } else {
        side_agg(ls.drop_first()).insert(ls[0].price, sum_quants(ls[0].orders))
    }
}

/// Aggregate view of the whole book, one map per side.
#[verifier::ext_equal]
pub ghost struct BookAgg {
    pub bids: Map<u64, int>,
    pub asks: Map<u64, int>,
}

pub open spec fn book_agg(b: BookModel) -> BookAgg {
    BookAgg { bids: side_agg(b.bids), asks: side_agg(b.asks) }
}

/// Apply one delta to a side's aggregate view, as a consumer of the
/// delta stream would: `Delete` drops the level, `New` and `Update` set
/// its quantity.
pub open spec fn apply_delta(m: Map<u64, int>, d: DeltaModel) -> Map<u64, int> {
    match d.action {
        DeltaAction::Delete => m.remove(d.price),
        DeltaAction::New => m.insert(d.price, d.new_quantity),
        DeltaAction::Update => m.insert(d.price, d.new_quantity),
    }
}

/// Apply a stream of deltas to a side's aggregate view, in order.
pub open spec fn apply_deltas(m: Map<u64, int>, ds: Seq<DeltaModel>) -> Map<u64, int>
    decreases ds.len(),
{
    if ds.len() == 0 {
        m
    } else {
        apply_deltas(apply_delta(m, ds[0]), ds.drop_first())
    }
}

/// Apply a stream of deltas to the whole book's aggregate view, each
/// routed to its side.
pub open spec fn apply_deltas_agg(a: BookAgg, ds: Seq<DeltaModel>) -> BookAgg
    decreases ds.len(),
{
    if ds.len() == 0 {
        a
    } else {
        let d = ds[0];
        let a2 = if d.side == OrderSide::Buy {
            BookAgg { bids: apply_delta(a.bids, d), ..a }
        } else {
            BookAgg { asks: apply_delta(a.asks, d), ..a }
        };
        apply_deltas_agg(a2, ds.drop_first())
    }
}

/// The domain of a side's aggregate view is exactly its prices.
pub proof fn lemma_side_agg_dom(ls: Seq<LevelModel>)
    ensures
        forall|p: u64|
            #[trigger] side_agg(ls).dom().contains(p) <==> exists|i: int|
                0 <= i < ls.len() && (#[trigger] ls[i]).price == p,
    decreases ls.len(),
{
    if ls.len() == 0 {
    } else {
        lemma_side_agg_dom(ls.drop_first());
        let tail = ls.drop_first();
        assert forall|p: u64| #[trigger] side_agg(ls).dom().contains(p) implies exists|i: int|
            0 <= i < ls.len() && (#[trigger] ls[i]).price == p by {
            if p == ls[0].price {
                assert(ls[0].price == p);
            } else {
                assert(side_agg(tail).dom().contains(p));
                let i = choose|i: int| 0 <= i < tail.len() && (#[trigger] tail[i]).price == p;
                assert(ls[i + 1] == tail[i]);
            }
        }
        assert forall|p: u64|
            (exists|i: int| 0 <= i < ls.len() && (#[trigger] ls[i]).price == p) implies
            #[trigger] side_agg(ls).dom().contains(p) by {
            let i = choose|i: int| 0 <= i < ls.len() && (#[trigger] ls[i]).price == p;
            if i == 0 {
            } else {
                assert(tail[i - 1] == ls[i]);
                assert(side_agg(tail).dom().contains(p));
            }
        }
    }
}

/// Replacing the level at position `i` by one at the same price rewrites
/// the aggregate view at exactly that price.
pub proof fn lemma_side_agg_update(ls: Seq<LevelModel>, i: int, nl: LevelModel)
    requires
        0 <= i < ls.len(),
        nl.price == ls[i].price,
        forall|k1: int, k2: int|
            0 <= k1 < k2 < ls.len() ==> (#[trigger] ls[k1]).price != (#[trigger] ls[k2]).price,
    ensures
        side_agg(ls.update(i, nl)) == side_agg(ls).insert(nl.price, sum_quants(nl.orders)),
    decreases ls.len(),
{
    let u = ls.update(i, nl);
    if i == 0 {
        assert(u.drop_first() =~= ls.drop_first());
        assert(u[0] == nl);
        assert(side_agg(ls.drop_first()).insert(nl.price, sum_quants(nl.orders)) =~= side_agg(
            ls.drop_first(),
        ).insert(ls[0].price, sum_quants(ls[0].orders)).insert(nl.price, sum_quants(nl.orders)));
    } else {
        let tail = ls.drop_first();
        assert forall|k1: int, k2: int|
            0 <= k1 < k2 < tail.len() implies (#[trigger] tail[k1]).price != (
        #[trigger] tail[k2]).price by {
            assert(tail[k1] == ls[k1 + 1]);
            assert(tail[k2] == ls[k2 + 1]);
        }
        assert(tail[i - 1] == ls[i]);
        lemma_side_agg_update(tail, i - 1, nl);
        assert(u.drop_first() =~= tail.update(i - 1, nl));
        assert(u[0] == ls[0]);
        assert(ls[0].price != nl.price);
        assert(side_agg(tail).insert(nl.price, sum_quants(nl.orders)).insert(
            ls[0].price,
            sum_quants(ls[0].orders),
        ) =~= side_agg(tail).insert(ls[0].price, sum_quants(ls[0].orders)).insert(
            nl.price,
            sum_quants(nl.orders),
        ));
    }
}

/// Inserting a level at a fresh price adds exactly that price to the
/// aggregate view.
pub proof fn lemma_side_agg_insert(ls: Seq<LevelModel>, i: int, nl: LevelModel)
    requires
        0 <= i <= ls.len(),
        forall|k: int| 0 <= k < ls.len() ==> (#[trigger] ls[k]).price != nl.price,
    ensures
        side_agg(ls.insert(i, nl)) == side_agg(ls).insert(nl.price, sum_quants(nl.orders)),
    decreases ls.len(),
{
    let u = ls.insert(i, nl);
    ls.insert_ensures(i, nl);
    if i == 0 {
        assert(u.drop_first() =~= ls);
        assert(u[0] == nl);
    } else {
        let tail = ls.drop_first();
        assert forall|k: int| 0 <= k < tail.len() implies (#[trigger] tail[k]).price
            != nl.price by {
            assert(tail[k] == ls[k + 1]);
        }
        lemma_side_agg_insert(tail, i - 1, nl);
        assert(u.drop_first() =~= tail.insert(i - 1, nl));
        assert(u[0] == ls[0]);
        assert(ls[0].price != nl.price);
        assert(side_agg(tail).insert(nl.price, sum_quants(nl.orders)).insert(
            ls[0].price,
            sum_quants(ls[0].orders),
        ) =~= side_agg(tail).insert(ls[0].price, sum_quants(ls[0].orders)).insert(
            nl.price,
            sum_quants(nl.orders),
        ));
    }
}

/// Removing the level at position `i` removes exactly its price from the
/// aggregate view.
pub proof fn lemma_side_agg_remove(ls: Seq<LevelModel>, i: int)
    requires
        0 <= i < ls.len(),
        forall|k1: int, k2: int|
            0 <= k1 < k2 < ls.len() ==> (#[trigger] ls[k1]).price != (#[trigger] ls[k2]).price,
    ensures
        side_agg(ls.remove(i)) == side_agg(ls).remove(ls[i].price),
    decreases ls.len(),
{
    let u = ls.remove(i);
    ls.remove_ensures(i);
    let tail = ls.drop_first();
    assert forall|k1: int, k2: int|
        0 <= k1 < k2 < tail.len() implies (#[trigger] tail[k1]).price != (
    #[trigger] tail[k2]).price by {
        assert(tail[k1] == ls[k1 + 1]);
        assert(tail[k2] == ls[k2 + 1]);
    }
    if i == 0 {
        assert(u =~= tail);
        lemma_side_agg_dom(tail);
        assert(!side_agg(tail).dom().contains(ls[0].price)) by {
            if side_agg(tail).dom().contains(ls[0].price) {
                let k = choose|k: int|
                    0 <= k < tail.len() && (#[trigger] tail[k]).price == ls[0].price;
                assert(tail[k] == ls[k + 1]);
                assert(false);
            }
        }
        assert(side_agg(tail) =~= side_agg(tail).insert(
            ls[0].price,
            sum_quants(ls[0].orders),
        ).remove(ls[0].price));
    } else {
        lemma_side_agg_remove(tail, i - 1);
        assert(tail[i - 1] == ls[i]);
        assert(u.drop_first() =~= tail.remove(i - 1));
        assert(u[0] == ls[0]);
        assert(ls[0].price != ls[i].price);
        assert(side_agg(tail).remove(ls[i].price).insert(
            ls[0].price,
            sum_quants(ls[0].orders),
        ) =~= side_agg(tail).insert(ls[0].price, sum_quants(ls[0].orders)).remove(ls[i].price));
    }
}

/// Replaying the deltas of one sweep onto the maker side's aggregate
/// view yields the aggregate view of the side after the sweep; every
/// such delta is on the maker side.
pub proof fn lemma_match_levels_replay(
    ts: OrderSide,
    limit: Option<u64>,
    q: int,
    levels: Seq<LevelModel>,
)
    requires
        q >= 0,
        side_wf(ts.spec_opposite(), levels),
        side_ids_distinct(levels),
    ensures
        ({
            let sm = match_levels(ts, limit, q, levels);
            &&& side_agg(sm.levels) == apply_deltas(side_agg(levels), sm.deltas)
            &&& forall|k: int|
                0 <= k < sm.deltas.len() ==> (#[trigger] sm.deltas[k]).side == ts.spec_opposite()
        }),
    decreases levels.len(),
{
    let sm = match_levels(ts, limit, q, levels);
    let mside = ts.spec_opposite();
    if q <= 0 || levels.len() == 0 || !crosses(ts, limit, levels[0].price) {
    } else {
        let l0 = levels[0];
        let lm = match_orders(q, l0.orders, l0.price);
        lemma_match_orders(q, l0.orders, l0.price);
        let tail = levels.drop_first();
        assert forall|k1: int, k2: int|
            0 <= k1 < k2 < levels.len() implies (#[trigger] levels[k1]).price != (
        #[trigger] levels[k2]).price by {
            assert(better_price(mside, levels[k1].price, levels[k2].price));
        }
        if lm.rest.len() == 0 {
            lemma_side_tail(mside, levels);
            lemma_match_levels_replay(ts, limit, lm.taker_left, tail);
            let sub = match_levels(ts, limit, lm.taker_left, tail);
            let d = DeltaModel {
                action: DeltaAction::Delete,
                side: mside,
                price: l0.price,
                new_quantity: 0,
            };
            assert(sm.deltas == seq![d] + sub.deltas);
            assert(sm.deltas[0] == d);
            assert(sm.deltas.drop_first() =~= sub.deltas);
            lemma_side_agg_dom(tail);
            assert(!side_agg(tail).dom().contains(l0.price)) by {
                if side_agg(tail).dom().contains(l0.price) {
                    let k = choose|k: int|
                        0 <= k < tail.len() && (#[trigger] tail[k]).price == l0.price;
                    assert(tail[k] == levels[k + 1]);
                    assert(false);
                }
            }
            assert(apply_delta(side_agg(levels), d) =~= side_agg(tail));
            assert forall|k: int| 0 <= k < sm.deltas.len() implies (#[trigger] sm.deltas[k]).side
                == mside by {
                if k > 0 {
                    assert(sm.deltas[k] == sub.deltas[k - 1]);
                }
            }
        } else {
            let nl = LevelModel { price: l0.price, orders: lm.rest };
            let d = DeltaModel {
                action: DeltaAction::Update,
                side: mside,
                price: l0.price,
                new_quantity: sum_quants(lm.rest),
            };
            assert(sm.deltas == seq![d]);
            assert(sm.deltas[0] == d);
            assert(sm.deltas.drop_first() =~= Seq::<DeltaModel>::empty());
            assert(apply_deltas(apply_delta(side_agg(levels), d), Seq::<DeltaModel>::empty())
                == apply_delta(side_agg(levels), d));
            lemma_side_agg_update(levels, 0, nl);
            assert(sm.levels == levels.update(0, nl));
        }
    }
}

/// Replaying a resting order's delta onto its side's aggregate view
/// yields the aggregate view after the insertion.
pub proof fn lemma_insert_resting_replay(side: OrderSide, levels: Seq<LevelModel>, order: Order)
    requires
        side_sorted(side, levels),
    ensures
        ({
            let rr = insert_resting(side, levels, order);
            &&& side_agg(rr.levels) == apply_delta(side_agg(levels), rr.delta)
            &&& rr.delta.side == side
        }),
{
    lemma_find_pos(side, levels, order.price);
    let i = find_pos(side, levels, order.price);
    let rr = insert_resting(side, levels, order);
    assert forall|k1: int, k2: int|
        0 <= k1 < k2 < levels.len() implies (#[trigger] levels[k1]).price != (
    #[trigger] levels[k2]).price by {
        assert(better_price(side, levels[k1].price, levels[k2].price));
    }
    if i < levels.len() && levels[i].price == order.price {
        let nl = LevelModel { price: order.price, orders: levels[i].orders.push(order) };
        lemma_side_agg_update(levels, i, nl);
    } else {
        let nl = LevelModel { price: order.price, orders: seq![order] };
        assert forall|k: int| 0 <= k < levels.len() implies (#[trigger] levels[k]).price
            != order.price by {
            if k < i {
                assert(better_price(side, levels[k].price, order.price));
            } else if k == i {
            } else {
                assert(better_price(side, levels[i].price, levels[k].price));
                assert(!better_price(side, levels[i].price, order.price));
                assert(levels[i].price != order.price);
            }
        }
        lemma_side_agg_insert(levels, i, nl);
        assert(sum_quants(nl.orders) == order.quantity) by {
            assert(nl.orders[0] == order);
            assert(sum_quants(Seq::<Order>::empty()) == 0);
            assert(nl.orders.drop_first() =~= Seq::<Order>::empty());
        }
    }
}

/// Replaying a cancellation's delta onto its side's aggregate view
/// yields the aggregate view after the removal.
pub proof fn lemma_cancel_replay(side: OrderSide, levels: Seq<LevelModel>, id: u128)
    requires
        side_wf(side, levels),
        levels_have_id(levels, id),
    ensures
        ({
            let cm = cancel_from_side(side, levels, id);
            &&& side_agg(cm.levels) == apply_delta(side_agg(levels), cm.delta)
            &&& cm.delta.side == side
        }),
{
    lemma_level_pos_of_id(levels, id);
    let li = level_pos_of_id(levels, id);
    let l = levels[li];
    lemma_order_pos_of_id(l.orders, id);
    let oi = order_pos_of_id(l.orders, id);
    let cm = cancel_from_side(side, levels, id);
    assert forall|k1: int, k2: int|
        0 <= k1 < k2 < levels.len() implies (#[trigger] levels[k1]).price != (
    #[trigger] levels[k2]).price by {
        assert(better_price(side, levels[k1].price, levels[k2].price));
    }
    if l.orders.len() == 1 {
        lemma_side_agg_remove(levels, li);
    } else {
        let rest = l.orders.remove(oi);
        lemma_side_agg_update(levels, li, LevelModel { price: l.price, orders: rest });
    }
}

/// With every delta of a stream on one side, replaying it on the book's
/// aggregate view only rewrites that side's map.
pub proof fn lemma_apply_agg_one_side(a: BookAgg, ds: Seq<DeltaModel>, s: OrderSide)
    requires
        forall|k: int| 0 <= k < ds.len() ==> (#[trigger] ds[k]).side == s,
    ensures
        s == OrderSide::Buy ==> apply_deltas_agg(a, ds) == (BookAgg {
            bids: apply_deltas(a.bids, ds),
            asks: a.asks,
        }),
        s == OrderSide::Sell ==> apply_deltas_agg(a, ds) == (BookAgg {
            bids: a.bids,
            asks: apply_deltas(a.asks, ds),
        }),
    decreases ds.len(),
{
    if ds.len() == 0 {
    } else {
        assert(ds[0].side == s);
        let a2 = if ds[0].side == OrderSide::Buy {
            BookAgg { bids: apply_delta(a.bids, ds[0]), ..a }
        } else {
            BookAgg { asks: apply_delta(a.asks, ds[0]), ..a }
        };
        assert forall|k: int| 0 <= k < ds.drop_first().len() implies (
        #[trigger] ds.drop_first()[k]).side == s by {
            assert(ds.drop_first()[k] == ds[k + 1]);
        }
        lemma_apply_agg_one_side(a2, ds.drop_first(), s);
    }
}

/// Replaying a concatenation replays the two parts in order.
pub proof fn lemma_apply_agg_append(a: BookAgg, ds1: Seq<DeltaModel>, ds2: Seq<DeltaModel>)
    ensures
        apply_deltas_agg(a, ds1 + ds2) == apply_deltas_agg(apply_deltas_agg(a, ds1), ds2),
    decreases ds1.len(),
{
    if ds1.len() == 0 {
        assert(ds1 + ds2 =~= ds2);
    } else {
        assert((ds1 + ds2)[0] == ds1[0]);
        assert((ds1 + ds2).drop_first() =~= ds1.drop_first() + ds2);
        let d = ds1[0];
        let a2 = if d.side == OrderSide::Buy {
            BookAgg { bids: apply_delta(a.bids, d), ..a }
        } else {
            BookAgg { asks: apply_delta(a.asks, d), ..a }
        };
        lemma_apply_agg_append(a2, ds1.drop_first(), ds2);
    }
}

/// Replaying a single delta takes one routed step.
pub proof fn lemma_apply_agg_one(a: BookAgg, d: DeltaModel)
    ensures
        d.side == OrderSide::Buy ==> apply_deltas_agg(a, seq![d]) == (BookAgg {
            bids: apply_delta(a.bids, d),
            asks: a.asks,
        }),
        d.side == OrderSide::Sell ==> apply_deltas_agg(a, seq![d]) == (BookAgg {
            bids: a.bids,
            asks: apply_delta(a.asks, d),
        }),
{
    let ds = seq![d];
    assert(ds[0] == d);
    assert(ds.drop_first() =~= Seq::<DeltaModel>::empty());
    let a2 = if d.side == OrderSide::Buy {
        BookAgg { bids: apply_delta(a.bids, d), ..a }
    } else {
        BookAgg { asks: apply_delta(a.asks, d), ..a }
    };
    assert(apply_deltas_agg(a2, Seq::<DeltaModel>::empty()) == a2);
}

/// Delta faithfulness for an admission: replaying the emitted deltas on
/// the aggregate view of the book before it yields the aggregate view of
/// the book after it. By induction over a run of operations starting
/// from the empty book, a consumer that only follows the delta stream
/// reconstructs the engine's aggregate book, level by level.
pub proof fn lemma_add_order_replay(pre: BookModel, order: Order)
    requires
        side_wf(OrderSide::Buy, pre.bids),
        side_wf(OrderSide::Sell, pre.asks),
        side_ids_distinct(pre.bids),
        side_ids_distinct(pre.asks),
    ensures
        ({
            let ar = add_order_result(pre, order);
            book_agg(ar.book) == apply_deltas_agg(book_agg(pre), ar.deltas)
        }),
{
    let ar = add_order_result(pre, order);
    if order.quantity == 0 {
    } else {
        let opp = order.side.spec_opposite();
        let limit = if order.order_type == OrderType::Limit {
            Some(order.price)
        } else {
            None
        };
        let sm = match_levels(order.side, limit, order.quantity as int, side_levels(pre, opp));
        assert(side_wf(opp, side_levels(pre, opp)) && side_ids_distinct(side_levels(pre, opp))
            && side_sorted(order.side, side_levels(pre, order.side))) by {
            if opp == OrderSide::Buy {
                assert(side_levels(pre, opp) == pre.bids);
                assert(side_levels(pre, order.side) == pre.asks);
            } else {
                assert(side_levels(pre, opp) == pre.asks);
                assert(side_levels(pre, order.side) == pre.bids);
            }
        }
        lemma_match_levels_replay(order.side, limit, order.quantity as int, side_levels(pre, opp));
        lemma_match_levels(order.side, limit, order.quantity as int, side_levels(pre, opp));
        lemma_apply_agg_one_side(book_agg(pre), sm.deltas, opp);
        let b1 = with_side(pre, opp, sm.levels);
        let b2 = BookModel { last_traded_price: ltp_after(sm.fills, pre.last_traded_price), ..b1 };
        assert(book_agg(b2) == apply_deltas_agg(book_agg(pre), sm.deltas)) by {
            if opp == OrderSide::Buy {
                assert(b2.bids == sm.levels);
                assert(b2.asks == pre.asks);
                assert(book_agg(b2) =~= apply_deltas_agg(book_agg(pre), sm.deltas));
            } else {
                assert(b2.asks == sm.levels);
                assert(b2.bids == pre.bids);
                assert(book_agg(b2) =~= apply_deltas_agg(book_agg(pre), sm.deltas));
            }
        }
        if order.order_type == OrderType::Limit && sm.taker_left > 0 {
            let rest_ord = Order { quantity: sm.taker_left as u64, ..order };
            lemma_insert_resting_replay(order.side, side_levels(b2, order.side), rest_ord);
            let rr = insert_resting(order.side, side_levels(b2, order.side), rest_ord);
            assert(ar.deltas == sm.deltas + seq![rr.delta]);
            lemma_apply_agg_append(book_agg(pre), sm.deltas, seq![rr.delta]);
            assert(side_levels(b2, order.side) == side_levels(pre, order.side));
            let a1 = apply_deltas_agg(book_agg(pre), sm.deltas);
            lemma_apply_agg_one(a1, rr.delta);
            assert(book_agg(ar.book) == apply_deltas_agg(a1, seq![rr.delta])) by {
                if order.side == OrderSide::Buy {
                    assert(ar.book.bids == rr.levels);
                    assert(ar.book.asks == b2.asks);
                    assert(side_agg(rr.levels) == apply_delta(side_agg(b2.bids), rr.delta));
                    assert(book_agg(ar.book) =~= apply_deltas_agg(a1, seq![rr.delta]));
                } else {
                    assert(ar.book.asks == rr.levels);
                    assert(ar.book.bids == b2.bids);
                    assert(side_agg(rr.levels) == apply_delta(side_agg(b2.asks), rr.delta));
                    assert(book_agg(ar.book) =~= apply_deltas_agg(a1, seq![rr.delta]));
                }
            }
        } else {
            assert(ar.book == b2);
        }
    }
}

/// Delta faithfulness for a cancellation: replaying its single delta on
/// the aggregate view of the book before it yields the aggregate view of
/// the book with the order removed from the side where it rests.
pub proof fn lemma_cancel_order_replay(pre: BookModel, side: OrderSide, id: u128)
    requires
        side_wf(side, side_levels(pre, side)),
        levels_have_id(side_levels(pre, side), id),
    ensures
        ({
            let cm = cancel_from_side(side, side_levels(pre, side), id);
            book_agg(with_side(pre, side, cm.levels)) == apply_deltas_agg(
                book_agg(pre),
                seq![cm.delta],
            )
        }),
{
    lemma_cancel_replay(side, side_levels(pre, side), id);
    let cm = cancel_from_side(side, side_levels(pre, side), id);
    let post = with_side(pre, side, cm.levels);
    lemma_apply_agg_one(book_agg(pre), cm.delta);
    if side == OrderSide::Buy {
        assert(side_levels(pre, side) == pre.bids);
        assert(post.bids == cm.levels);
        assert(post.asks == pre.asks);
        assert(book_agg(post) =~= apply_deltas_agg(book_agg(pre), seq![cm.delta]));
    } else {
        assert(side_levels(pre, side) == pre.asks);
        assert(post.asks == cm.levels);
        assert(post.bids == pre.bids);
        assert(book_agg(post) =~= apply_deltas_agg(book_agg(pre), seq![cm.delta]));
    }
}

} // verus!
