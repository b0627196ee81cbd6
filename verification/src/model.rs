//! Mathematical model of the book and of the matching algorithm.
//!
//! The executable engine in [`crate::book`] is specified against the ghost
//! types and recursive spec functions of this module: a side of the book is
//! a price-sorted sequence of levels, each level a FIFO sequence of orders,
//! and matching is a recursion that consumes makers from the front of the
//! best level first.

use vstd::prelude::*;
use crate::types::{DeltaAction, Order, OrderBookDelta, OrderSide, OrderType, Trade};

verus! {

/// One price level: its price and the FIFO sequence of resting orders.
#[verifier::ext_equal]
pub ghost struct LevelModel {
    pub price: u64,
    pub orders: Seq<Order>,
}

/// The whole book: both sides best-first, plus the last traded price.
#[verifier::ext_equal]
pub ghost struct BookModel {
    pub symbol: Seq<char>,
    pub bids: Seq<LevelModel>,
    pub asks: Seq<LevelModel>,
    pub last_traded_price: Option<u64>,
}

/// One match: the maker consumed, the trade price, the traded quantity.
pub ghost struct Fill {
    pub maker_id: u128,
    pub price: u64,
    pub quantity: int,
}

/// Model of an emitted delta, with an unbounded aggregate quantity.
pub ghost struct DeltaModel {
    pub action: DeltaAction,
    pub side: OrderSide,
    pub price: u64,
    pub new_quantity: int,
}

/// Sum of the remaining quantities of a sequence of orders.
pub open spec fn sum_quants(s: Seq<Order>) -> int
    decreases s.len(),
{
    if s.len() == 0 {
        0
    } else {
        s[0].quantity + sum_quants(s.drop_first())
    }
}

/// `a` is strictly better than `b` from the maker's standpoint on `side`:
/// a higher bid, or a lower ask.
pub open spec fn better_price(side: OrderSide, a: u64, b: u64) -> bool {
    match side {
        OrderSide::Buy => a > b,
        OrderSide::Sell => a < b,
    }
}

/// The levels of one side are strictly ordered best-first.
pub open spec fn side_sorted(side: OrderSide, levels: Seq<LevelModel>) -> bool {
    forall|i: int, j: int|
        0 <= i < j < levels.len() ==> better_price(
            side,
            (#[trigger] levels[i]).price,
            (#[trigger] levels[j]).price,
        )
}

/// An order may rest in a level at `price` on `side`.
pub open spec fn order_fits_level(o: Order, price: u64, side: OrderSide) -> bool {
    &&& o.price == price
    &&& o.side == side
    &&& o.order_type == OrderType::Limit
    &&& o.quantity > 0
}

/// Well-formedness of a level that may be mid-mutation and empty: every
/// order matches the level, and order ids are distinct.
pub open spec fn level_open_wf(l: LevelModel, side: OrderSide) -> bool {
    &&& forall|j: int| 0 <= j < l.orders.len() ==> order_fits_level(#[trigger] l.orders[j], l.price, side)
    &&& forall|j1: int, j2: int|
        0 <= j1 < j2 < l.orders.len() ==> (#[trigger] l.orders[j1]).id != (#[trigger] l.orders[j2]).id
}

/// Well-formedness of a level at rest: positive price, non-empty FIFO,
/// every order matching the level, distinct order ids.
pub open spec fn level_wf(l: LevelModel, side: OrderSide) -> bool {
    &&& l.price > 0
    &&& l.orders.len() > 0
    &&& level_open_wf(l, side)
}

/// Well-formedness of one whole side.
pub open spec fn side_wf(side: OrderSide, levels: Seq<LevelModel>) -> bool {
    &&& side_sorted(side, levels)
    &&& forall|i: int| 0 <= i < levels.len() ==> level_wf(#[trigger] levels[i], side)
}

/// Some order in `s` carries `id`.
pub open spec fn orders_have_id(s: Seq<Order>, id: u128) -> bool {
    exists|j: int| 0 <= j < s.len() && (#[trigger] s[j]).id == id
}

/// Some order in some level of `ls` carries `id`.
pub open spec fn levels_have_id(ls: Seq<LevelModel>, id: u128) -> bool {
    exists|i: int| 0 <= i < ls.len() && orders_have_id((#[trigger] ls[i]).orders, id)
}

/// Some level of `ls` has price `price` and holds an order with `id`.
pub open spec fn has_order_at(ls: Seq<LevelModel>, price: u64, id: u128) -> bool {
    exists|i: int|
        0 <= i < ls.len() && (#[trigger] ls[i]).price == price && orders_have_id(ls[i].orders, id)
}

/// Whether a taker on `taker_side`, limited to `limit`, may trade against
/// a maker level at `level_price`. A market order (`limit == None`)
/// crosses every level.
pub open spec fn crosses(taker_side: OrderSide, limit: Option<u64>, level_price: u64) -> bool {
    match limit {
        None => true,
        Some(l) => match taker_side {
            OrderSide::Buy => level_price <= l,
            OrderSide::Sell => level_price >= l,
        },
    }
}

/// Result of matching a taker against one level's FIFO.
pub ghost struct LevelMatch {
    pub fills: Seq<Fill>,
    pub taker_left: int,
    pub rest: Seq<Order>,
}

/// Match a taker with `taker_q` remaining against the FIFO `orders` of a
/// level at `price`: trade `min(taker, maker)` with each maker from the
/// front, until the taker is exhausted or the level empties.
pub open spec fn match_orders(taker_q: int, orders: Seq<Order>, price: u64) -> LevelMatch
    decreases orders.len(),
{
    if taker_q <= 0 || orders.len() == 0 {
        LevelMatch { fills: Seq::empty(), taker_left: taker_q, rest: orders }
    } else {
        let m = orders[0];
        if taker_q < m.quantity {
            let reduced = Order { quantity: (m.quantity - taker_q) as u64, ..m };
            LevelMatch {
                fills: seq![Fill { maker_id: m.id, price: price, quantity: taker_q }],
                taker_left: 0,
                rest: orders.update(0, reduced),
            }
        } else {
            let sub = match_orders(taker_q - m.quantity, orders.drop_first(), price);
            LevelMatch {
                fills: seq![Fill { maker_id: m.id, price: price, quantity: m.quantity as int }]
                    + sub.fills,
                taker_left: sub.taker_left,
                rest: sub.rest,
            }
        }
    }
}

/// Result of sweeping a taker across the levels of the opposing side.
pub ghost struct SideMatch {
    pub fills: Seq<Fill>,
    pub deltas: Seq<DeltaModel>,
    pub taker_left: int,
    pub levels: Seq<LevelModel>,
}

/// Sweep a taker across `levels` (the opposing side, best-first): match
/// whole levels while the crossing condition holds and quantity remains,
/// emitting one delta per touched level.
pub open spec fn match_levels(
    taker_side: OrderSide,
    limit: Option<u64>,
    taker_q: int,
    levels: Seq<LevelModel>,
) -> SideMatch
    decreases levels.len(),
{
    if taker_q <= 0 || levels.len() == 0 || !crosses(taker_side, limit, levels[0].price) {
        SideMatch { fills: Seq::empty(), deltas: Seq::empty(), taker_left: taker_q, levels: levels }
    } else {
        let l0 = levels[0];
        let lm = match_orders(taker_q, l0.orders, l0.price);
        let maker_side = taker_side.spec_opposite();
        if lm.rest.len() == 0 {
            let d = DeltaModel {
                action: DeltaAction::Delete,
                side: maker_side,
                price: l0.price,
                new_quantity: 0,
            };
            let sub = match_levels(taker_side, limit, lm.taker_left, levels.drop_first());
            SideMatch {
                fills: lm.fills + sub.fills,
                deltas: seq![d] + sub.deltas,
                taker_left: sub.taker_left,
                levels: sub.levels,
            }
        } else {
            let d = DeltaModel {
                action: DeltaAction::Update,
                side: maker_side,
                price: l0.price,
                new_quantity: sum_quants(lm.rest),
            };
            SideMatch {
                fills: lm.fills,
                deltas: seq![d],
                taker_left: lm.taker_left,
                levels: levels.update(0, LevelModel { price: l0.price, orders: lm.rest }),
            }
        }
    }
}

/// Position at which a level with `price` belongs on `side`: the number
/// of levels with a strictly better price.
pub open spec fn find_pos(side: OrderSide, levels: Seq<LevelModel>, price: u64) -> int
    decreases levels.len(),
{
    if levels.len() == 0 {
        0
    } else if better_price(side, levels[0].price, price) {
        1 + find_pos(side, levels.drop_first(), price)
    } else {
        0
    }
}

/// Result of adding a resting order to its own side.
pub ghost struct RestResult {
    pub levels: Seq<LevelModel>,
    pub delta: DeltaModel,
}

/// Append `order` to the level at its price, creating the level at its
/// sorted position if absent; the delta reports the level's new aggregate.
pub open spec fn insert_resting(side: OrderSide, levels: Seq<LevelModel>, order: Order) -> RestResult {
    let i = find_pos(side, levels, order.price);
    if i < levels.len() && levels[i].price == order.price {
        let nl = LevelModel { price: order.price, orders: levels[i].orders.push(order) };
        RestResult {
            levels: levels.update(i, nl),
            delta: DeltaModel {
                action: DeltaAction::Update,
                side: side,
                price: order.price,
                new_quantity: sum_quants(nl.orders),
            },
        }
    } else {
        RestResult {
            levels: levels.insert(i, LevelModel { price: order.price, orders: seq![order] }),
            delta: DeltaModel {
                action: DeltaAction::New,
                side: side,
                price: order.price,
                new_quantity: order.quantity as int,
            },
        }
    }
}

/// Index of the first level of `ls` holding an order with `id`.
pub open spec fn level_pos_of_id(ls: Seq<LevelModel>, id: u128) -> int
    decreases ls.len(),
{
    if ls.len() == 0 {
        0
    } else if orders_have_id(ls[0].orders, id) {
        0
    } else {
        1 + level_pos_of_id(ls.drop_first(), id)
    }
}

/// Index of the first order of `s` carrying `id`.
pub open spec fn order_pos_of_id(s: Seq<Order>, id: u128) -> int
    decreases s.len(),
{
    if s.len() == 0 {
        0
    } else if s[0].id == id {
        0
    } else {
        1 + order_pos_of_id(s.drop_first(), id)
    }
}

/// Result of removing a resting order from its side.
pub ghost struct CancelModel {
    pub removed: Order,
    pub levels: Seq<LevelModel>,
    pub delta: DeltaModel,
}

/// Remove the order with `id` from `levels` (meaningful when
/// `levels_have_id(levels, id)`): splice it out of its level's FIFO,
/// dropping the level if it empties, and report the level's new aggregate.
pub open spec fn cancel_from_side(side: OrderSide, levels: Seq<LevelModel>, id: u128) -> CancelModel {
    let li = level_pos_of_id(levels, id);
    let l = levels[li];
    let oi = order_pos_of_id(l.orders, id);
    let removed = l.orders[oi];
    if l.orders.len() == 1 {
        CancelModel {
            removed: removed,
            levels: levels.remove(li),
            delta: DeltaModel {
                action: DeltaAction::Delete,
                side: side,
                price: l.price,
                new_quantity: 0,
            },
        }
    } else {
        let rest = l.orders.remove(oi);
        CancelModel {
            removed: removed,
            levels: levels.update(li, LevelModel { price: l.price, orders: rest }),
            delta: DeltaModel {
                action: DeltaAction::Update,
                side: side,
                price: l.price,
                new_quantity: sum_quants(rest),
            },
        }
    }
}

/// The fills reported by a sequence of trades.
pub open spec fn fills_of(trades: Seq<Trade>) -> Seq<Fill> {
    trades.map_values(
        |t: Trade| Fill { maker_id: t.maker_order_id, price: t.price, quantity: t.quantity as int },
    )
}

/// The models of a sequence of emitted deltas.
pub open spec fn dms_of(deltas: Seq<OrderBookDelta>) -> Seq<DeltaModel> {
    deltas.map_values(
        |d: OrderBookDelta| DeltaModel {
            action: d.action,
            side: d.side,
            price: d.price,
            new_quantity: d.new_quantity as int,
        },
    )
}

/// The levels of one side of the book.
pub open spec fn side_levels(b: BookModel, side: OrderSide) -> Seq<LevelModel> {
    match side {
        OrderSide::Buy => b.bids,
        OrderSide::Sell => b.asks,
    }
}

/// `b` with one side replaced.
pub open spec fn with_side(b: BookModel, side: OrderSide, ls: Seq<LevelModel>) -> BookModel {
    match side {
        OrderSide::Buy => BookModel { bids: ls, ..b },
        OrderSide::Sell => BookModel { asks: ls, ..b },
    }
}

/// The last traded price after producing `fills`, given the previous one.
pub open spec fn ltp_after(fills: Seq<Fill>, prev: Option<u64>) -> Option<u64> {
    if fills.len() > 0 {
        Some(fills.last().price)
    } else {
        prev
    }
}

/// Everything an admission produces: the book after, the fills, the deltas.
pub ghost struct AddResult {
    pub book: BookModel,
    pub fills: Seq<Fill>,
    pub deltas: Seq<DeltaModel>,
}

/// The complete effect of admitting `order` to the book `pre`.
///
/// A zero-quantity admission is a silent no-op. Otherwise the taker sweeps
/// the opposing side (price-gated for a limit order, ungated for a market
/// order); a limit taker's residual rests on its own side; a market
/// residual is discarded; the last traded price follows the final fill.
pub open spec fn add_order_result(pre: BookModel, order: Order) -> AddResult {
    if order.quantity == 0 {
        AddResult { book: pre, fills: Seq::empty(), deltas: Seq::empty() }
    } else {
        let limit = if order.order_type == OrderType::Limit {
            Some(order.price)
        } else {
            None
        };
        let opp = order.side.spec_opposite();
        let sm = match_levels(order.side, limit, order.quantity as int, side_levels(pre, opp));
        let b1 = with_side(pre, opp, sm.levels);
        let b2 = BookModel { last_traded_price: ltp_after(sm.fills, pre.last_traded_price), ..b1 };
        if order.order_type == OrderType::Limit && sm.taker_left > 0 {
            let rr = insert_resting(
                order.side,
                side_levels(b2, order.side),
                Order { quantity: sm.taker_left as u64, ..order },
            );
            AddResult {
                book: with_side(b2, order.side, rr.levels),
                fills: sm.fills,
                deltas: sm.deltas + seq![rr.delta],
            }
        } else {
            AddResult { book: b2, fills: sm.fills, deltas: sm.deltas }
        }
    }
}

/// `a` is `b` after zero or more partial fills: identical but for a
/// positive remaining quantity no larger than `b`'s.
pub open spec fn reduced_from(a: Order, b: Order) -> bool {
    &&& a.id == b.id
    &&& a.user_id == b.user_id
    &&& a.order_type == b.order_type
    &&& a.side == b.side
    &&& a.price == b.price
    &&& a.timestamp == b.timestamp
    &&& 0 < a.quantity <= b.quantity
}

pub proof fn lemma_sum_nonneg(s: Seq<Order>)
    ensures
        sum_quants(s) >= 0,
    decreases s.len(),
{
    if s.len() > 0 {
        lemma_sum_nonneg(s.drop_first());
    }
}

pub proof fn lemma_sum_bound(s: Seq<Order>)
    ensures
        0 <= sum_quants(s) <= s.len() * (u64::MAX as int),
    decreases s.len(),
{
    if s.len() == 0 {
    } else {
        lemma_sum_bound(s.drop_first());
        assert(s.len() * (u64::MAX as int) == (s.len() - 1) * (u64::MAX as int) + u64::MAX)
            by (nonlinear_arith);
    }
}

pub proof fn lemma_sum_push(s: Seq<Order>, o: Order)
    ensures
        sum_quants(s.push(o)) == sum_quants(s) + o.quantity,
    decreases s.len(),
{
    if s.len() == 0 {
        assert(s.push(o)[0] == o);
        assert(s.push(o).drop_first() =~= s);
    } else {
        lemma_sum_push(s.drop_first(), o);
        assert(s.push(o)[0] == s[0]);
        assert(s.push(o).drop_first() =~= s.drop_first().push(o));
    }
}

pub proof fn lemma_sum_remove(s: Seq<Order>, i: int)
    requires
        0 <= i < s.len(),
    ensures
        sum_quants(s.remove(i)) == sum_quants(s) - s[i].quantity,
    decreases s.len(),
{
    if i == 0 {
        assert(s.remove(0) =~= s.drop_first());
    } else {
        lemma_sum_remove(s.drop_first(), i - 1);
        assert(s.remove(i).drop_first() =~= s.drop_first().remove(i - 1));
        assert(s.remove(i)[0] == s[0]);
    }
}

pub proof fn lemma_sum_update(s: Seq<Order>, i: int, o: Order)
    requires
        0 <= i < s.len(),
    ensures
        sum_quants(s.update(i, o)) == sum_quants(s) - s[i].quantity + o.quantity,
    decreases s.len(),
{
    if i == 0 {
        assert(s.update(0, o).drop_first() =~= s.drop_first());
        assert(s.update(0, o)[0] == o);
    } else {
        lemma_sum_update(s.drop_first(), i - 1, o);
        assert(s.update(i, o).drop_first() =~= s.drop_first().update(i - 1, o));
        assert(s.update(i, o)[0] == s[0]);
    }
}

/// Shape, conservation, and FIFO facts about matching within one level.
pub proof fn lemma_match_orders(q: int, orders: Seq<Order>, price: u64)
    requires
        q >= 0,
        forall|j: int| 0 <= j < orders.len() ==> (#[trigger] orders[j]).quantity > 0,
    ensures
        ({
            let lm = match_orders(q, orders, price);
            let c = orders.len() - lm.rest.len();
            &&& 0 <= lm.taker_left <= q
            &&& lm.rest.len() <= orders.len()
            &&& (lm.rest.len() > 0 ==> lm.taker_left == 0)
            &&& sum_quants(lm.rest) == sum_quants(orders) - (q - lm.taker_left)
            &&& forall|j: int| 0 <= j < lm.rest.len() ==> reduced_from(#[trigger] lm.rest[j], orders[c + j])
            &&& (lm.fills.len() == c || (lm.fills.len() == c + 1 && lm.rest.len() > 0))
            &&& forall|k: int|
                0 <= k < lm.fills.len() ==> (#[trigger] lm.fills[k]).maker_id == orders[k].id
                    && lm.fills[k].price == price && 0 < lm.fills[k].quantity <= orders[k].quantity
            &&& forall|k: int|
                0 <= k < c ==> (#[trigger] lm.fills[k]).quantity == orders[k].quantity
        }),
    decreases orders.len(),
{
    let lm = match_orders(q, orders, price);
    let c = orders.len() - lm.rest.len();
    if q <= 0 || orders.len() == 0 {
    } else {
        let m = orders[0];
        if q < m.quantity {
            let reduced = Order { quantity: (m.quantity - q) as u64, ..m };
            lemma_sum_update(orders, 0, reduced);
        } else {
            let rest = orders.drop_first();
            lemma_match_orders(q - m.quantity, rest, price);
            let sub = match_orders(q - m.quantity, rest, price);
            assert(sum_quants(orders) == m.quantity + sum_quants(rest));
            let csub = rest.len() - sub.rest.len();
            assert forall|j: int| 0 <= j < lm.rest.len() implies reduced_from(
                #[trigger] lm.rest[j],
                orders[c + j],
            ) by {
                assert(reduced_from(sub.rest[j], rest[csub + j]));
                assert(rest[csub + j] == orders[c + j]);
            }
            assert forall|k: int| 0 <= k < lm.fills.len() implies (#[trigger] lm.fills[k]).maker_id
                == orders[k].id && lm.fills[k].price == price && 0 < lm.fills[k].quantity
                <= orders[k].quantity by {
                if k > 0 {
                    assert(lm.fills[k] == sub.fills[k - 1]);
                    assert(rest[k - 1] == orders[k]);
                }
            }
            assert forall|k: int| 0 <= k < c implies (#[trigger] lm.fills[k]).quantity
                == orders[k].quantity by {
                if k > 0 {
                    assert(lm.fills[k] == sub.fills[k - 1]);
                    assert(rest[k - 1] == orders[k]);
                }
            }
        }
    }
}

/// Ids of the FIFO after a match are ids it already held.
pub proof fn lemma_match_orders_rest_ids(q: int, orders: Seq<Order>, price: u64)
    requires
        q >= 0,
        forall|j: int| 0 <= j < orders.len() ==> (#[trigger] orders[j]).quantity > 0,
    ensures
        ({
            let lm = match_orders(q, orders, price);
            forall|id: u128| #[trigger] orders_have_id(lm.rest, id) ==> orders_have_id(orders, id)
        }),
{
    lemma_match_orders(q, orders, price);
    let lm = match_orders(q, orders, price);
    let c = orders.len() - lm.rest.len();
    assert forall|id: u128| #[trigger] orders_have_id(lm.rest, id) implies orders_have_id(
        orders,
        id,
    ) by {
        let j = choose|j: int| 0 <= j < lm.rest.len() && (#[trigger] lm.rest[j]).id == id;
        assert(reduced_from(lm.rest[j], orders[c + j]));
        assert((orders[c + j]).id == id);
    }
}

/// With distinct maker ids, the FIFO after a match keeps them distinct,
/// and no consumed maker's id remains.
pub proof fn lemma_match_orders_distinct(q: int, orders: Seq<Order>, price: u64)
    requires
        q >= 0,
        forall|j: int| 0 <= j < orders.len() ==> (#[trigger] orders[j]).quantity > 0,
        forall|j1: int, j2: int|
            0 <= j1 < j2 < orders.len() ==> (#[trigger] orders[j1]).id != (#[trigger] orders[j2]).id,
    ensures
        ({
            let lm = match_orders(q, orders, price);
            let c = orders.len() - lm.rest.len();
            &&& forall|j1: int, j2: int|
                0 <= j1 < j2 < lm.rest.len() ==> (#[trigger] lm.rest[j1]).id != (
                #[trigger] lm.rest[j2]).id
            &&& forall|k: int|
                0 <= k < c ==> !orders_have_id(lm.rest, (#[trigger] orders[k]).id)
        }),
{
    lemma_match_orders(q, orders, price);
    let lm = match_orders(q, orders, price);
    let c = orders.len() - lm.rest.len();
    assert forall|j1: int, j2: int| 0 <= j1 < j2 < lm.rest.len() implies (
    #[trigger] lm.rest[j1]).id != (#[trigger] lm.rest[j2]).id by {
        assert(reduced_from(lm.rest[j1], orders[c + j1]));
        assert(reduced_from(lm.rest[j2], orders[c + j2]));
    }
    assert forall|k: int| 0 <= k < c implies !orders_have_id(lm.rest, (#[trigger] orders[k]).id) by {
        if orders_have_id(lm.rest, orders[k].id) {
            let j = choose|j: int|
                0 <= j < lm.rest.len() && (#[trigger] lm.rest[j]).id == orders[k].id;
            assert(reduced_from(lm.rest[j], orders[c + j]));
            assert((orders[c + j]).id == orders[k].id);
            assert(false);
        }
    }
}

/// Membership of an id in a non-empty FIFO splits between its head and
/// its tail.
pub proof fn lemma_have_id_cons(s: Seq<Order>, id: u128)
    requires
        s.len() > 0,
    ensures
        orders_have_id(s, id) <==> (s[0].id == id || orders_have_id(s.drop_first(), id)),
{
    if s[0].id == id {
        assert(orders_have_id(s, id));
    }
    if orders_have_id(s.drop_first(), id) {
        let j = choose|j: int|
            0 <= j < s.drop_first().len() && (#[trigger] s.drop_first()[j]).id == id;
        assert(s[j + 1].id == id);
    }
    if orders_have_id(s, id) && s[0].id != id {
        let j = choose|j: int| 0 <= j < s.len() && (#[trigger] s[j]).id == id;
        assert(s.drop_first()[j - 1].id == id);
    }
}

/// No order id occurs in two different levels of one side.
pub open spec fn side_ids_distinct(ls: Seq<LevelModel>) -> bool {
    forall|i1: int, j1: int, i2: int, j2: int|
        #![trigger ls[i1].orders[j1], ls[i2].orders[j2]]
        0 <= i1 < i2 < ls.len() && 0 <= j1 < ls[i1].orders.len() && 0 <= j2
            < ls[i2].orders.len() ==> ls[i1].orders[j1].id != ls[i2].orders[j2].id
}

/// Membership of an id in a non-empty side splits between the best level
/// and the rest.
pub proof fn lemma_levels_have_id_cons(ls: Seq<LevelModel>, id: u128)
    requires
        ls.len() > 0,
    ensures
        levels_have_id(ls, id) <==> (orders_have_id(ls[0].orders, id) || levels_have_id(
            ls.drop_first(),
            id,
        )),
{
    if orders_have_id(ls[0].orders, id) {
        assert(levels_have_id(ls, id));
    }
    if levels_have_id(ls.drop_first(), id) {
        let i = choose|i: int|
            0 <= i < ls.drop_first().len() && orders_have_id(
                (#[trigger] ls.drop_first()[i]).orders,
                id,
            );
        assert(ls[i + 1] == ls.drop_first()[i]);
        assert(levels_have_id(ls, id));
    }
    if levels_have_id(ls, id) && !orders_have_id(ls[0].orders, id) {
        let i = choose|i: int| 0 <= i < ls.len() && orders_have_id((#[trigger] ls[i]).orders, id);
        assert(ls.drop_first()[i - 1] == ls[i]);
        assert(levels_have_id(ls.drop_first(), id));
    }
}

/// Location of an id at a price in a non-empty side splits likewise.
pub proof fn lemma_has_order_at_cons(ls: Seq<LevelModel>, p: u64, id: u128)
    requires
        ls.len() > 0,
    ensures
        has_order_at(ls, p, id) <==> ((ls[0].price == p && orders_have_id(ls[0].orders, id))
            || has_order_at(ls.drop_first(), p, id)),
{
    if ls[0].price == p && orders_have_id(ls[0].orders, id) {
        assert(has_order_at(ls, p, id));
    }
    if has_order_at(ls.drop_first(), p, id) {
        let i = choose|i: int|
            0 <= i < ls.drop_first().len() && (#[trigger] ls.drop_first()[i]).price == p
                && orders_have_id(ls.drop_first()[i].orders, id);
        assert(ls[i + 1] == ls.drop_first()[i]);
        assert(has_order_at(ls, p, id));
    }
    if has_order_at(ls, p, id) && !(ls[0].price == p && orders_have_id(ls[0].orders, id)) {
        let i = choose|i: int|
            0 <= i < ls.len() && (#[trigger] ls[i]).price == p && orders_have_id(
                ls[i].orders,
                id,
            );
        assert(ls.drop_first()[i - 1] == ls[i]);
        assert(has_order_at(ls.drop_first(), p, id));
    }
}

/// Dropping the best level keeps a side well-formed.
pub proof fn lemma_side_tail(side: OrderSide, ls: Seq<LevelModel>)
    requires
        ls.len() > 0,
        side_wf(side, ls),
        side_ids_distinct(ls),
    ensures
        side_wf(side, ls.drop_first()),
        side_ids_distinct(ls.drop_first()),
{
    let tail = ls.drop_first();
    assert forall|i: int| 0 <= i < tail.len() implies level_wf(#[trigger] tail[i], side) by {
        assert(tail[i] == ls[i + 1]);
    }
    assert forall|i: int, j: int|
        0 <= i < j < tail.len() implies better_price(
        side,
        (#[trigger] tail[i]).price,
        (#[trigger] tail[j]).price,
    ) by {
        assert(tail[i] == ls[i + 1]);
        assert(tail[j] == ls[j + 1]);
    }
    assert forall|i1: int, j1: int, i2: int, j2: int|
        #![trigger tail[i1].orders[j1], tail[i2].orders[j2]]
        0 <= i1 < i2 < tail.len() && 0 <= j1 < tail[i1].orders.len() && 0 <= j2
            < tail[i2].orders.len() implies tail[i1].orders[j1].id != tail[i2].orders[j2].id by {
        assert(tail[i1] == ls[i1 + 1]);
        assert(tail[i2] == ls[i2 + 1]);
    }
}

/// Everything the engine needs about one sweep across the maker side:
/// well-formedness is preserved, surviving levels are a (head-reduced)
/// suffix, ids only disappear, surviving ids stay at their price, and
/// every fill is positive at a maker's positive price.
pub proof fn lemma_match_levels(ts: OrderSide, limit: Option<u64>, q: int, levels: Seq<LevelModel>)
    requires
        q >= 0,
        side_wf(ts.spec_opposite(), levels),
        side_ids_distinct(levels),
    ensures
        ({
            let sm = match_levels(ts, limit, q, levels);
            let k0 = levels.len() - sm.levels.len();
            &&& 0 <= sm.taker_left <= q
            &&& sm.levels.len() <= levels.len()
            &&& side_wf(ts.spec_opposite(), sm.levels)
            &&& side_ids_distinct(sm.levels)
            &&& (sm.taker_left > 0 && sm.levels.len() > 0 ==> !crosses(
                ts,
                limit,
                sm.levels[0].price,
            ))
            &&& forall|j: int|
                0 <= j < sm.levels.len() ==> (#[trigger] sm.levels[j]).price == levels[k0
                    + j].price
            &&& forall|j: int| 1 <= j < sm.levels.len() ==> (#[trigger] sm.levels[j]) == levels[k0 + j]
            &&& forall|id: u128|
                #[trigger] levels_have_id(sm.levels, id) ==> levels_have_id(levels, id)
            &&& forall|p: u64, id: u128|
                #[trigger] has_order_at(sm.levels, p, id) ==> has_order_at(levels, p, id)
            &&& forall|p: u64, id: u128|
                #[trigger] has_order_at(levels, p, id) && levels_have_id(sm.levels, id)
                    ==> has_order_at(sm.levels, p, id)
            &&& forall|k: int|
                0 <= k < sm.fills.len() ==> 0 < (#[trigger] sm.fills[k]).quantity <= u64::MAX
                    && sm.fills[k].price > 0 && levels_have_id(levels, sm.fills[k].maker_id)
        }),
    decreases levels.len(),
{
    let sm = match_levels(ts, limit, q, levels);
    let k0 = levels.len() - sm.levels.len();
    let mside = ts.spec_opposite();
    if q <= 0 || levels.len() == 0 || !crosses(ts, limit, levels[0].price) {
    } else {
        let l0 = levels[0];
        let lm = match_orders(q, l0.orders, l0.price);
        lemma_match_orders(q, l0.orders, l0.price);
        lemma_match_orders_rest_ids(q, l0.orders, l0.price);
        lemma_match_orders_distinct(q, l0.orders, l0.price);
        let co = l0.orders.len() - lm.rest.len();
        if lm.rest.len() == 0 {
            let tail = levels.drop_first();
            assert forall|i1: int, j1: int, i2: int, j2: int|
                #![trigger tail[i1].orders[j1], tail[i2].orders[j2]]
                0 <= i1 < i2 < tail.len() && 0 <= j1 < tail[i1].orders.len() && 0 <= j2
                    < tail[i2].orders.len() implies tail[i1].orders[j1].id
                != tail[i2].orders[j2].id by {
                assert(tail[i1] == levels[i1 + 1]);
                assert(tail[i2] == levels[i2 + 1]);
            }
            assert forall|i: int| 0 <= i < tail.len() implies level_wf(#[trigger] tail[i], mside) by {
                assert(tail[i] == levels[i + 1]);
            }
            assert forall|i: int, j: int|
                0 <= i < j < tail.len() implies better_price(
                mside,
                (#[trigger] tail[i]).price,
                (#[trigger] tail[j]).price,
            ) by {
                assert(tail[i] == levels[i + 1]);
                assert(tail[j] == levels[j + 1]);
            }
            lemma_match_levels(ts, limit, lm.taker_left, tail);
            let sub = match_levels(ts, limit, lm.taker_left, tail);
            let k1 = tail.len() - sub.levels.len();
            assert(k0 == k1 + 1);
            assert forall|j: int| 0 <= j < sm.levels.len() implies (#[trigger] sm.levels[j]).price
                == levels[k0 + j].price by {
                assert(sub.levels[j].price == tail[k1 + j].price);
                assert(tail[k1 + j] == levels[k0 + j]);
            }
            assert forall|j: int| 1 <= j < sm.levels.len() implies (#[trigger] sm.levels[j])
                == levels[k0 + j] by {
                assert(sub.levels[j] == tail[k1 + j]);
                assert(tail[k1 + j] == levels[k0 + j]);
            }
            assert forall|id: u128| #[trigger] levels_have_id(sm.levels, id) implies levels_have_id(
                levels,
                id,
            ) by {
                assert(levels_have_id(tail, id));
                lemma_levels_have_id_cons(levels, id);
            }
            assert forall|p: u64, id: u128| #[trigger] has_order_at(sm.levels, p, id) implies
                has_order_at(levels, p, id) by {
                assert(has_order_at(tail, p, id));
                lemma_has_order_at_cons(levels, p, id);
            }
            assert forall|p: u64, id: u128|
                #[trigger] has_order_at(levels, p, id) && levels_have_id(sm.levels, id) implies
                has_order_at(sm.levels, p, id) by {
                lemma_has_order_at_cons(levels, p, id);
                assert(levels_have_id(tail, id));
                if l0.price == p && orders_have_id(l0.orders, id) {
                    // the id would live both in the consumed head level and
                    // in the tail, contradicting side_ids_distinct
                    let j1 = choose|j: int| 0 <= j < l0.orders.len() && (#[trigger] l0.orders[j]).id == id;
                    let i2 = choose|i: int|
                        0 <= i < tail.len() && orders_have_id((#[trigger] tail[i]).orders, id);
                    let j2 = choose|j: int|
                        0 <= j < tail[i2].orders.len() && (#[trigger] tail[i2].orders[j]).id == id;
                    assert(tail[i2] == levels[i2 + 1]);
                    assert(levels[0].orders[j1].id == levels[i2 + 1].orders[j2].id);
                    assert(false);
                } else {
                    assert(has_order_at(tail, p, id));
                }
            }
            assert forall|k: int|
                0 <= k < sm.fills.len() implies 0 < (#[trigger] sm.fills[k]).quantity <= u64::MAX
                    && sm.fills[k].price > 0 && levels_have_id(levels, sm.fills[k].maker_id) by {
                if k < lm.fills.len() {
                    assert(sm.fills[k] == lm.fills[k]);
                    assert(lm.fills[k].maker_id == l0.orders[k].id);
                    assert(lm.fills[k].quantity <= l0.orders[k].quantity);
                    assert(orders_have_id(l0.orders, lm.fills[k].maker_id));
                    assert(levels_have_id(levels, sm.fills[k].maker_id));
                } else {
                    assert(sm.fills[k] == sub.fills[k - lm.fills.len()]);
                    assert(levels_have_id(tail, sm.fills[k].maker_id));
                    lemma_levels_have_id_cons(levels, sm.fills[k].maker_id);
                }
            }
        } else {
            // the head level survives with its FIFO reduced
            let nl = LevelModel { price: l0.price, orders: lm.rest };
            assert(sm.levels =~= levels.update(0, nl));
            assert(lm.taker_left == 0);
            assert forall|j: int| 0 <= j < lm.rest.len() implies order_fits_level(
                #[trigger] lm.rest[j],
                l0.price,
                mside,
            ) by {
                assert(reduced_from(lm.rest[j], l0.orders[co + j]));
                assert(order_fits_level(l0.orders[co + j], l0.price, mside));
            }
            assert forall|i: int| 0 <= i < sm.levels.len() implies level_wf(
                #[trigger] sm.levels[i],
                mside,
            ) by {
                if i > 0 {
                    assert(sm.levels[i] == levels[i]);
                }
            }
            assert forall|i: int, j: int|
                0 <= i < j < sm.levels.len() implies better_price(
                mside,
                (#[trigger] sm.levels[i]).price,
                (#[trigger] sm.levels[j]).price,
            ) by {
                assert(sm.levels[i].price == levels[i].price);
                assert(sm.levels[j].price == levels[j].price);
            }
            assert forall|i1: int, j1: int, i2: int, j2: int|
                #![trigger sm.levels[i1].orders[j1], sm.levels[i2].orders[j2]]
                0 <= i1 < i2 < sm.levels.len() && 0 <= j1 < sm.levels[i1].orders.len() && 0 <= j2
                    < sm.levels[i2].orders.len() implies sm.levels[i1].orders[j1].id
                != sm.levels[i2].orders[j2].id by {
                assert(sm.levels[i2] == levels[i2]);
                if i1 == 0 {
                    assert(sm.levels[0].orders[j1].id == l0.orders[co + j1].id);
                    assert(levels[0].orders[co + j1].id != levels[i2].orders[j2].id);
                } else {
                    assert(sm.levels[i1] == levels[i1]);
                }
            }
            assert forall|id: u128| #[trigger] levels_have_id(sm.levels, id) implies levels_have_id(
                levels,
                id,
            ) by {
                let i = choose|i: int|
                    0 <= i < sm.levels.len() && orders_have_id((#[trigger] sm.levels[i]).orders, id);
                if i == 0 {
                    assert(orders_have_id(lm.rest, id));
                    assert(orders_have_id(l0.orders, id));
                    assert(levels_have_id(levels, id));
                } else {
                    assert(sm.levels[i] == levels[i]);
                    assert(levels_have_id(levels, id));
                }
            }
            assert forall|p: u64, id: u128| #[trigger] has_order_at(sm.levels, p, id) implies
                has_order_at(levels, p, id) by {
                let i = choose|i: int|
                    0 <= i < sm.levels.len() && (#[trigger] sm.levels[i]).price == p
                        && orders_have_id(sm.levels[i].orders, id);
                if i == 0 {
                    assert(orders_have_id(l0.orders, id));
                    assert(has_order_at(levels, p, id));
                } else {
                    assert(sm.levels[i] == levels[i]);
                    assert(has_order_at(levels, p, id));
                }
            }
            assert forall|p: u64, id: u128|
                #[trigger] has_order_at(levels, p, id) && levels_have_id(sm.levels, id) implies
                has_order_at(sm.levels, p, id) by {
                let i = choose|i: int|
                    0 <= i < levels.len() && (#[trigger] levels[i]).price == p && orders_have_id(
                        levels[i].orders,
                        id,
                    );
                let i2 = choose|i2: int|
                    0 <= i2 < sm.levels.len() && orders_have_id((#[trigger] sm.levels[i2]).orders, id);
                if i == 0 {
                    // the id is in the old head; in sm it cannot sit in a
                    // deeper level, so it is in the reduced head at price p
                    if i2 != 0 {
                        assert(sm.levels[i2] == levels[i2]);
                        let j1 = choose|j: int|
                            0 <= j < l0.orders.len() && (#[trigger] l0.orders[j]).id == id;
                        let j2 = choose|j: int|
                            0 <= j < levels[i2].orders.len() && (#[trigger] levels[i2].orders[j]).id
                                == id;
                        assert(levels[0].orders[j1].id == levels[i2].orders[j2].id);
                        assert(false);
                    }
                    assert(sm.levels[0].price == p);
                    assert(has_order_at(sm.levels, p, id));
                } else {
                    assert(sm.levels[i] == levels[i]);
                    assert(has_order_at(sm.levels, p, id));
                }
            }
            assert forall|k: int|
                0 <= k < sm.fills.len() implies 0 < (#[trigger] sm.fills[k]).quantity <= u64::MAX
                    && sm.fills[k].price > 0 && levels_have_id(levels, sm.fills[k].maker_id) by {
                assert(sm.fills[k] == lm.fills[k]);
                assert(lm.fills[k].maker_id == l0.orders[k].id);
                assert(lm.fills[k].quantity <= l0.orders[k].quantity);
                assert(orders_have_id(l0.orders, lm.fills[k].maker_id));
                assert(levels_have_id(levels, sm.fills[k].maker_id));
            }
        }
    }
}

/// `find_pos` is the length of the maximal prefix of strictly better
/// levels; under sortedness it is the unique sorted insertion point.
pub proof fn lemma_find_pos(side: OrderSide, levels: Seq<LevelModel>, price: u64)
    ensures
        ({
            let i = find_pos(side, levels, price);
            &&& 0 <= i <= levels.len()
            &&& forall|k: int|
                0 <= k < i ==> better_price(side, (#[trigger] levels[k]).price, price)
            &&& (i < levels.len() ==> !better_price(side, levels[i].price, price))
        }),
    decreases levels.len(),
{
    let i = find_pos(side, levels, price);
    if levels.len() == 0 {
    } else if better_price(side, levels[0].price, price) {
        let tail = levels.drop_first();
        lemma_find_pos(side, tail, price);
        let isub = find_pos(side, tail, price);
        assert forall|k: int| 0 <= k < i implies better_price(
            side,
            (#[trigger] levels[k]).price,
            price,
        ) by {
            if k > 0 {
                assert(tail[k - 1] == levels[k]);
            }
        }
        if i < levels.len() {
            assert(tail[isub] == levels[i]);
        }
    } else {
    }
}

/// Everything the engine needs about resting an order on its own side.
pub proof fn lemma_insert_resting(side: OrderSide, levels: Seq<LevelModel>, order: Order)
    requires
        side_wf(side, levels),
        side_ids_distinct(levels),
        order_fits_level(order, order.price, side),
        order.price > 0,
        !levels_have_id(levels, order.id),
    ensures
        ({
            let rr = insert_resting(side, levels, order);
            &&& side_wf(side, rr.levels)
            &&& side_ids_distinct(rr.levels)
            &&& rr.levels.len() > 0
            &&& (levels.len() == 0 ==> rr.levels[0].price == order.price)
            &&& (levels.len() > 0 ==> rr.levels[0].price == levels[0].price || rr.levels[0].price
                == order.price)
            &&& has_order_at(rr.levels, order.price, order.id)
            &&& forall|p: u64, id: u128|
                #[trigger] has_order_at(rr.levels, p, id) ==> (has_order_at(levels, p, id) || (p
                    == order.price && id == order.id))
            &&& forall|p: u64, id: u128|
                #[trigger] has_order_at(levels, p, id) ==> has_order_at(rr.levels, p, id)
            &&& forall|id: u128|
                #[trigger] levels_have_id(rr.levels, id) <==> (levels_have_id(levels, id) || id
                    == order.id)
        }),
{
    lemma_find_pos(side, levels, order.price);
    let i = find_pos(side, levels, order.price);
    let rr = insert_resting(side, levels, order);
    if i < levels.len() && levels[i].price == order.price {
        let nl = LevelModel { price: order.price, orders: levels[i].orders.push(order) };
        assert(rr.levels =~= levels.update(i, nl));
        assert(!orders_have_id(levels[i].orders, order.id)) by {
            if orders_have_id(levels[i].orders, order.id) {
                assert(levels_have_id(levels, order.id));
            }
        }
        assert forall|j: int| 0 <= j < nl.orders.len() implies order_fits_level(
            #[trigger] nl.orders[j],
            nl.price,
            side,
        ) by {
            if j < levels[i].orders.len() {
                assert(nl.orders[j] == levels[i].orders[j]);
            } else {
                assert(nl.orders[j] == order);
            }
        }
        assert forall|j1: int, j2: int|
            0 <= j1 < j2 < nl.orders.len() implies (#[trigger] nl.orders[j1]).id != (
        #[trigger] nl.orders[j2]).id by {
            if j2 < levels[i].orders.len() {
                assert(nl.orders[j1] == levels[i].orders[j1]);
                assert(nl.orders[j2] == levels[i].orders[j2]);
            } else {
                assert(nl.orders[j2] == order);
                assert(nl.orders[j1] == levels[i].orders[j1]);
                if order.id == levels[i].orders[j1].id {
                    assert(orders_have_id(levels[i].orders, order.id));
                    assert(levels_have_id(levels, order.id));
                    assert(false);
                }
            }
        }
        assert forall|k: int| 0 <= k < rr.levels.len() implies level_wf(
            #[trigger] rr.levels[k],
            side,
        ) by {
            if k != i {
                assert(rr.levels[k] == levels[k]);
            }
        }
        assert forall|k1: int, k2: int|
            0 <= k1 < k2 < rr.levels.len() implies better_price(
            side,
            (#[trigger] rr.levels[k1]).price,
            (#[trigger] rr.levels[k2]).price,
        ) by {
            assert(rr.levels[k1].price == levels[k1].price);
            assert(rr.levels[k2].price == levels[k2].price);
        }
        assert forall|i1: int, j1: int, i2: int, j2: int|
            #![trigger rr.levels[i1].orders[j1], rr.levels[i2].orders[j2]]
            0 <= i1 < i2 < rr.levels.len() && 0 <= j1 < rr.levels[i1].orders.len() && 0 <= j2
                < rr.levels[i2].orders.len() implies rr.levels[i1].orders[j1].id
            != rr.levels[i2].orders[j2].id by {
            if i1 == i && j1 == levels[i].orders.len() {
                assert(rr.levels[i1].orders[j1] == order);
                assert(rr.levels[i2] == levels[i2]);
                if order.id == levels[i2].orders[j2].id {
                    assert(orders_have_id(levels[i2].orders, order.id));
                    assert(levels_have_id(levels, order.id));
                    assert(false);
                }
            } else if i2 == i && j2 == levels[i].orders.len() {
                assert(rr.levels[i2].orders[j2] == order);
                assert(rr.levels[i1] == levels[i1]);
                if order.id == levels[i1].orders[j1].id {
                    assert(orders_have_id(levels[i1].orders, order.id));
                    assert(levels_have_id(levels, order.id));
                    assert(false);
                }
            } else {
                assert(rr.levels[i1].orders[j1] == levels[i1].orders[j1]);
                assert(rr.levels[i2].orders[j2] == levels[i2].orders[j2]);
            }
        }
        assert(orders_have_id(nl.orders, order.id)) by {
            assert(nl.orders[levels[i].orders.len() as int] == order);
        }
        assert(has_order_at(rr.levels, order.price, order.id)) by {
            assert(rr.levels[i].price == order.price);
        }
        assert forall|p: u64, id: u128| #[trigger] has_order_at(rr.levels, p, id) implies (
        has_order_at(levels, p, id) || (p == order.price && id == order.id)) by {
            let k = choose|k: int|
                0 <= k < rr.levels.len() && (#[trigger] rr.levels[k]).price == p && orders_have_id(
                    rr.levels[k].orders,
                    id,
                );
            if k != i {
                assert(rr.levels[k] == levels[k]);
            } else {
                let j = choose|j: int|
                    0 <= j < nl.orders.len() && (#[trigger] nl.orders[j]).id == id;
                if j < levels[i].orders.len() {
                    assert(levels[i].orders[j].id == id);
                    assert(orders_have_id(levels[i].orders, id));
                    assert(has_order_at(levels, p, id));
                } else {
                    assert(nl.orders[j] == order);
                }
            }
        }
        assert forall|p: u64, id: u128| #[trigger] has_order_at(levels, p, id) implies
            has_order_at(rr.levels, p, id) by {
            let k = choose|k: int|
                0 <= k < levels.len() && (#[trigger] levels[k]).price == p && orders_have_id(
                    levels[k].orders,
                    id,
                );
            if k != i {
                assert(rr.levels[k] == levels[k]);
            } else {
                let j = choose|j: int|
                    0 <= j < levels[i].orders.len() && (#[trigger] levels[i].orders[j]).id == id;
                assert(nl.orders[j] == levels[i].orders[j]);
                assert(orders_have_id(nl.orders, id));
                assert(rr.levels[i].price == p);
            }
        }
        assert forall|id: u128| #[trigger] levels_have_id(rr.levels, id) <==> (levels_have_id(
            levels,
            id,
        ) || id == order.id) by {
            if levels_have_id(rr.levels, id) {
                let k = choose|k: int|
                    0 <= k < rr.levels.len() && orders_have_id((#[trigger] rr.levels[k]).orders, id);
                if k != i {
                    assert(rr.levels[k] == levels[k]);
                    assert(levels_have_id(levels, id));
                } else {
                    let j = choose|j: int|
                        0 <= j < nl.orders.len() && (#[trigger] nl.orders[j]).id == id;
                    if j < levels[i].orders.len() {
                        assert(levels[i].orders[j].id == id);
                        assert(orders_have_id(levels[i].orders, id));
                        assert(levels_have_id(levels, id));
                    } else {
                        assert(nl.orders[j] == order);
                    }
                }
            }
            if levels_have_id(levels, id) {
                let k = choose|k: int|
                    0 <= k < levels.len() && orders_have_id((#[trigger] levels[k]).orders, id);
                if k != i {
                    assert(rr.levels[k] == levels[k]);
                    assert(levels_have_id(rr.levels, id));
                } else {
                    let j = choose|j: int|
                        0 <= j < levels[i].orders.len() && (#[trigger] levels[i].orders[j]).id
                            == id;
                    assert(nl.orders[j] == levels[i].orders[j]);
                    assert(orders_have_id(nl.orders, id));
                    assert(levels_have_id(rr.levels, id));
                }
            }
            if id == order.id {
                assert(levels_have_id(rr.levels, id));
            }
        }
    } else {
        let nl = LevelModel { price: order.price, orders: seq![order] };
        levels.insert_ensures(i, nl);
        assert(rr.levels == levels.insert(i, nl));
        assert(nl.orders[0] == order);
        assert(level_wf(nl, side));
        assert forall|k: int| 0 <= k < rr.levels.len() implies level_wf(
            #[trigger] rr.levels[k],
            side,
        ) by {
            if k < i {
                assert(rr.levels[k] == levels[k]);
            } else if k > i {
                assert(rr.levels[k] == levels[k - 1]);
            }
        }
        assert forall|k1: int, k2: int|
            0 <= k1 < k2 < rr.levels.len() implies better_price(
            side,
            (#[trigger] rr.levels[k1]).price,
            (#[trigger] rr.levels[k2]).price,
        ) by {
            if k1 < i {
                assert(rr.levels[k1] == levels[k1]);
            } else if k1 > i {
                assert(rr.levels[k1] == levels[k1 - 1]);
            }
            if k2 < i {
                assert(rr.levels[k2] == levels[k2]);
            } else if k2 > i {
                assert(rr.levels[k2] == levels[k2 - 1]);
            }
            if k1 == i && k2 > i {
                assert(!better_price(side, levels[i].price, order.price));
                assert(levels[k2 - 1].price != order.price || k2 - 1 == i);
                if k2 - 1 > i {
                    assert(better_price(side, levels[i].price, levels[k2 - 1].price));
                }
            }
        }
        assert forall|i1: int, j1: int, i2: int, j2: int|
            #![trigger rr.levels[i1].orders[j1], rr.levels[i2].orders[j2]]
            0 <= i1 < i2 < rr.levels.len() && 0 <= j1 < rr.levels[i1].orders.len() && 0 <= j2
                < rr.levels[i2].orders.len() implies rr.levels[i1].orders[j1].id
            != rr.levels[i2].orders[j2].id by {
            let a1 = if i1 < i {
                i1
            } else {
                i1 - 1
            };
            let a2 = if i2 < i {
                i2
            } else {
                i2 - 1
            };
            if i1 == i {
                assert(rr.levels[i1].orders[j1] == order);
                assert(rr.levels[i2] == levels[a2]);
                if order.id == levels[a2].orders[j2].id {
                    assert(orders_have_id(levels[a2].orders, order.id));
                    assert(levels_have_id(levels, order.id));
                    assert(false);
                }
            } else if i2 == i {
                assert(rr.levels[i2].orders[j2] == order);
                assert(rr.levels[i1] == levels[a1]);
                if order.id == levels[a1].orders[j1].id {
                    assert(orders_have_id(levels[a1].orders, order.id));
                    assert(levels_have_id(levels, order.id));
                    assert(false);
                }
            } else {
                assert(rr.levels[i1] == levels[a1]);
                assert(rr.levels[i2] == levels[a2]);
            }
        }
        assert(has_order_at(rr.levels, order.price, order.id)) by {
            assert(rr.levels[i] == nl);
        }
        assert forall|p: u64, id: u128| #[trigger] has_order_at(rr.levels, p, id) implies (
        has_order_at(levels, p, id) || (p == order.price && id == order.id)) by {
            let k = choose|k: int|
                0 <= k < rr.levels.len() && (#[trigger] rr.levels[k]).price == p && orders_have_id(
                    rr.levels[k].orders,
                    id,
                );
            if k < i {
                assert(rr.levels[k] == levels[k]);
            } else if k > i {
                assert(rr.levels[k] == levels[k - 1]);
                assert(has_order_at(levels, p, id));
            } else {
                let j = choose|j: int|
                    0 <= j < nl.orders.len() && (#[trigger] nl.orders[j]).id == id;
                assert(nl.orders[j] == order);
            }
        }
        assert forall|p: u64, id: u128| #[trigger] has_order_at(levels, p, id) implies
            has_order_at(rr.levels, p, id) by {
            let k = choose|k: int|
                0 <= k < levels.len() && (#[trigger] levels[k]).price == p && orders_have_id(
                    levels[k].orders,
                    id,
                );
            if k < i {
                assert(rr.levels[k] == levels[k]);
            } else {
                assert(rr.levels[k + 1] == levels[k]);
            }
        }
        assert forall|id: u128| #[trigger] levels_have_id(rr.levels, id) <==> (levels_have_id(
            levels,
            id,
        ) || id == order.id) by {
            if levels_have_id(rr.levels, id) {
                let k = choose|k: int|
                    0 <= k < rr.levels.len() && orders_have_id((#[trigger] rr.levels[k]).orders, id);
                if k < i {
                    assert(rr.levels[k] == levels[k]);
                    assert(levels_have_id(levels, id));
                } else if k > i {
                    assert(rr.levels[k] == levels[k - 1]);
                    assert(levels_have_id(levels, id));
                } else {
                    let j = choose|j: int|
                        0 <= j < nl.orders.len() && (#[trigger] nl.orders[j]).id == id;
                    assert(nl.orders[j] == order);
                }
            }
            if levels_have_id(levels, id) {
                let k = choose|k: int|
                    0 <= k < levels.len() && orders_have_id((#[trigger] levels[k]).orders, id);
                if k < i {
                    assert(rr.levels[k] == levels[k]);
                    assert(levels_have_id(rr.levels, id));
                } else {
                    assert(rr.levels[k + 1] == levels[k]);
                    assert(levels_have_id(rr.levels, id));
                }
            }
            if id == order.id {
                assert(levels_have_id(rr.levels, id));
            }
        }
    }
}


/// `level_pos_of_id` finds the first level holding `id`.
pub proof fn lemma_level_pos_of_id(ls: Seq<LevelModel>, id: u128)
    requires
        levels_have_id(ls, id),
    ensures
        ({
            let li = level_pos_of_id(ls, id);
            &&& 0 <= li < ls.len()
            &&& orders_have_id(ls[li].orders, id)
            &&& forall|k: int| 0 <= k < li ==> !orders_have_id((#[trigger] ls[k]).orders, id)
        }),
    decreases ls.len(),
{
    let li = level_pos_of_id(ls, id);
    if orders_have_id(ls[0].orders, id) {
    } else {
        let tail = ls.drop_first();
        lemma_levels_have_id_cons(ls, id);
        lemma_level_pos_of_id(tail, id);
        let lsub = level_pos_of_id(tail, id);
        assert(ls[li] == tail[lsub]);
        assert forall|k: int| 0 <= k < li implies !orders_have_id((#[trigger] ls[k]).orders, id) by {
            if k > 0 {
                assert(ls[k] == tail[k - 1]);
            }
        }
    }
}

/// `order_pos_of_id` finds the first order carrying `id`.
pub proof fn lemma_order_pos_of_id(s: Seq<Order>, id: u128)
    requires
        orders_have_id(s, id),
    ensures
        ({
            let oi = order_pos_of_id(s, id);
            &&& 0 <= oi < s.len()
            &&& s[oi].id == id
            &&& forall|k: int| 0 <= k < oi ==> (#[trigger] s[k]).id != id
        }),
    decreases s.len(),
{
    let oi = order_pos_of_id(s, id);
    if s[0].id == id {
    } else {
        let tail = s.drop_first();
        lemma_have_id_cons(s, id);
        lemma_order_pos_of_id(tail, id);
        assert(s[oi] == tail[oi - 1]);
        assert forall|k: int| 0 <= k < oi implies (#[trigger] s[k]).id != id by {
            if k > 0 {
                assert(s[k] == tail[k - 1]);
            }
        }
    }
}

/// Everything the engine needs about splicing a resting order out of its
/// side: well-formedness is preserved, exactly the cancelled id leaves,
/// every other order stays at its price, and the best price does not
/// improve.
pub proof fn lemma_cancel_from_side(side: OrderSide, levels: Seq<LevelModel>, id: u128)
    requires
        side_wf(side, levels),
        side_ids_distinct(levels),
        levels_have_id(levels, id),
    ensures
        ({
            let cm = cancel_from_side(side, levels, id);
            &&& side_wf(side, cm.levels)
            &&& side_ids_distinct(cm.levels)
            &&& cm.removed.id == id
            &&& order_fits_level(cm.removed, cm.removed.price, side)
            &&& has_order_at(levels, cm.removed.price, id)
            &&& (forall|i: int, j: int|
                #![trigger levels[i].orders[j]]
                0 <= i < levels.len() && 0 <= j < levels[i].orders.len()
                    && levels[i].orders[j].id == id ==> levels[i].orders[j] == cm.removed)
            &&& (forall|x: u128|
                #[trigger] levels_have_id(cm.levels, x) <==> (levels_have_id(levels, x) && x
                    != id))
            &&& (forall|p: u64, x: u128|
                #[trigger] has_order_at(cm.levels, p, x) ==> has_order_at(levels, p, x))
            &&& (forall|p: u64, x: u128|
                #[trigger] has_order_at(levels, p, x) && x != id ==> has_order_at(
                    cm.levels,
                    p,
                    x,
                ))
            &&& (cm.levels.len() > 0 ==> cm.levels[0].price == levels[0].price || !better_price(
                side,
                cm.levels[0].price,
                levels[0].price,
            ))
            &&& cm.delta.side == side
            &&& cm.removed.quantity > 0
        }),
{
    let cm = cancel_from_side(side, levels, id);
    lemma_level_pos_of_id(levels, id);
    let li = level_pos_of_id(levels, id);
    let l = levels[li];
    lemma_order_pos_of_id(l.orders, id);
    let oi = order_pos_of_id(l.orders, id);
    assert(cm.removed == l.orders[oi]);
    assert(order_fits_level(cm.removed, l.price, side));
    assert(has_order_at(levels, l.price, id));
    assert forall|i: int, j: int|
        #![trigger levels[i].orders[j]]
        0 <= i < levels.len() && 0 <= j < levels[i].orders.len()
            && levels[i].orders[j].id == id implies levels[i].orders[j] == cm.removed by {
        if i != li {
            if i < li {
                assert(levels[i].orders[j].id != levels[li].orders[oi].id);
            } else {
                assert(levels[li].orders[oi].id != levels[i].orders[j].id);
            }
            assert(false);
        } else {
            if j != oi {
                assert(l.orders[j].id != l.orders[oi].id || l.orders[oi].id != l.orders[j].id);
                assert(false);
            }
        }
    }
    if l.orders.len() == 1 {
        // the whole level goes away
        levels.remove_ensures(li);
        assert(cm.levels == levels.remove(li));
        assert forall|k: int| 0 <= k < cm.levels.len() implies level_wf(
            #[trigger] cm.levels[k],
            side,
        ) && (k < li ==> cm.levels[k] == levels[k]) && (k >= li ==> cm.levels[k] == levels[k
            + 1]) by {}
        assert forall|k1: int, k2: int|
            0 <= k1 < k2 < cm.levels.len() implies better_price(
            side,
            (#[trigger] cm.levels[k1]).price,
            (#[trigger] cm.levels[k2]).price,
        ) by {
            let a = if k1 < li { k1 } else { k1 + 1 };
            let b = if k2 < li { k2 } else { k2 + 1 };
            assert(cm.levels[k1] == levels[a]);
            assert(cm.levels[k2] == levels[b]);
        }
        assert forall|i1: int, j1: int, i2: int, j2: int|
            #![trigger cm.levels[i1].orders[j1], cm.levels[i2].orders[j2]]
            0 <= i1 < i2 < cm.levels.len() && 0 <= j1 < cm.levels[i1].orders.len() && 0 <= j2
                < cm.levels[i2].orders.len() implies cm.levels[i1].orders[j1].id
            != cm.levels[i2].orders[j2].id by {
            let a = if i1 < li { i1 } else { i1 + 1 };
            let b = if i2 < li { i2 } else { i2 + 1 };
            assert(cm.levels[i1] == levels[a]);
            assert(cm.levels[i2] == levels[b]);
        }
        assert forall|x: u128| #[trigger] levels_have_id(cm.levels, x) implies (levels_have_id(
            levels,
            x,
        ) && x != id) by {
            let i = choose|i: int|
                0 <= i < cm.levels.len() && orders_have_id((#[trigger] cm.levels[i]).orders, x);
            let a = if i < li { i } else { i + 1 };
            assert(cm.levels[i] == levels[a]);
            assert(levels_have_id(levels, x));
            if x == id {
                let j = choose|j: int|
                    0 <= j < levels[a].orders.len() && (#[trigger] levels[a].orders[j]).id == x;
                assert(levels[a].orders[j] == cm.removed);
                assert(l.orders[oi].id == id);
                if a < li {
                    assert(levels[a].orders[j].id != levels[li].orders[oi].id);
                } else {
                    assert(levels[li].orders[oi].id != levels[a].orders[j].id);
                }
                assert(false);
            }
        }
        assert forall|x: u128| levels_have_id(levels, x) && x != id implies #[trigger]
            levels_have_id(cm.levels, x) by {
            let i = choose|i: int|
                0 <= i < levels.len() && orders_have_id((#[trigger] levels[i]).orders, x);
            if i == li {
                let j = choose|j: int|
                    0 <= j < l.orders.len() && (#[trigger] l.orders[j]).id == x;
                assert(j == oi);
                assert(false);
            } else if i < li {
                assert(cm.levels[i] == levels[i]);
                assert(levels_have_id(cm.levels, x));
            } else {
                assert(cm.levels[i - 1] == levels[i]);
                assert(levels_have_id(cm.levels, x));
            }
        }
        assert forall|p: u64, x: u128| #[trigger] has_order_at(cm.levels, p, x) implies
            has_order_at(levels, p, x) by {
            let i = choose|i: int|
                0 <= i < cm.levels.len() && (#[trigger] cm.levels[i]).price == p && orders_have_id(
                    cm.levels[i].orders,
                    x,
                );
            let a = if i < li { i } else { i + 1 };
            assert(cm.levels[i] == levels[a]);
        }
        assert forall|p: u64, x: u128|
            #[trigger] has_order_at(levels, p, x) && x != id implies has_order_at(
            cm.levels,
            p,
            x,
        ) by {
            let i = choose|i: int|
                0 <= i < levels.len() && (#[trigger] levels[i]).price == p && orders_have_id(
                    levels[i].orders,
                    x,
                );
            if i == li {
                let j = choose|j: int|
                    0 <= j < l.orders.len() && (#[trigger] l.orders[j]).id == x;
                assert(j == oi);
                assert(false);
            } else if i < li {
                assert(cm.levels[i] == levels[i]);
            } else {
                assert(cm.levels[i - 1] == levels[i]);
            }
        }
        if cm.levels.len() > 0 {
            if li == 0 {
                assert(cm.levels[0] == levels[1]);
                assert(better_price(side, levels[0].price, levels[1].price));
            } else {
                assert(cm.levels[0] == levels[0]);
            }
        }
    } else {
        let rest = l.orders.remove(oi);
        l.orders.remove_ensures(oi);
        let nl = LevelModel { price: l.price, orders: rest };
        assert(cm.levels == levels.update(li, nl));
        assert forall|j: int| 0 <= j < rest.len() implies order_fits_level(
            #[trigger] rest[j],
            l.price,
            side,
        ) && ((j < oi ==> rest[j] == l.orders[j]) && (j >= oi ==> rest[j] == l.orders[j + 1])) by {}
        assert forall|j1: int, j2: int|
            0 <= j1 < j2 < rest.len() implies (#[trigger] rest[j1]).id != (
        #[trigger] rest[j2]).id by {
            let a = if j1 < oi { j1 } else { j1 + 1 };
            let b = if j2 < oi { j2 } else { j2 + 1 };
            assert(rest[j1] == l.orders[a]);
            assert(rest[j2] == l.orders[b]);
        }
        assert(level_wf(nl, side));
        assert forall|k: int| 0 <= k < cm.levels.len() implies level_wf(
            #[trigger] cm.levels[k],
            side,
        ) by {
            if k != li {
                assert(cm.levels[k] == levels[k]);
            }
        }
        assert forall|k1: int, k2: int|
            0 <= k1 < k2 < cm.levels.len() implies better_price(
            side,
            (#[trigger] cm.levels[k1]).price,
            (#[trigger] cm.levels[k2]).price,
        ) by {
            assert(cm.levels[k1].price == levels[k1].price);
            assert(cm.levels[k2].price == levels[k2].price);
        }
        assert(!orders_have_id(rest, id)) by {
            if orders_have_id(rest, id) {
                let j = choose|j: int| 0 <= j < rest.len() && (#[trigger] rest[j]).id == id;
                let a = if j < oi { j } else { j + 1 };
                assert(rest[j] == l.orders[a]);
                assert(a != oi);
                if a < oi {
                    assert(l.orders[a].id != l.orders[oi].id);
                } else {
                    assert(l.orders[oi].id != l.orders[a].id);
                }
                assert(false);
            }
        }
        assert forall|x: u128|
            orders_have_id(rest, x) implies orders_have_id(l.orders, x) by {
            let j = choose|j: int| 0 <= j < rest.len() && (#[trigger] rest[j]).id == x;
            let a = if j < oi { j } else { j + 1 };
            assert(rest[j] == l.orders[a]);
        }
        assert forall|x: u128|
            orders_have_id(l.orders, x) && x != id implies orders_have_id(rest, x) by {
            let j = choose|j: int| 0 <= j < l.orders.len() && (#[trigger] l.orders[j]).id == x;
            assert(j != oi);
            if j < oi {
                assert(rest[j] == l.orders[j]);
            } else {
                assert(rest[j - 1] == l.orders[j]);
            }
        }
        assert forall|i1: int, j1: int, i2: int, j2: int|
            #![trigger cm.levels[i1].orders[j1], cm.levels[i2].orders[j2]]
            0 <= i1 < i2 < cm.levels.len() && 0 <= j1 < cm.levels[i1].orders.len() && 0 <= j2
                < cm.levels[i2].orders.len() implies cm.levels[i1].orders[j1].id
            != cm.levels[i2].orders[j2].id by {
            if i1 == li {
                let a = if j1 < oi { j1 } else { j1 + 1 };
                assert(cm.levels[i1].orders[j1] == levels[li].orders[a]);
                assert(cm.levels[i2] == levels[i2]);
            } else if i2 == li {
                let b = if j2 < oi { j2 } else { j2 + 1 };
                assert(cm.levels[i2].orders[j2] == levels[li].orders[b]);
                assert(cm.levels[i1] == levels[i1]);
            } else {
                assert(cm.levels[i1] == levels[i1]);
                assert(cm.levels[i2] == levels[i2]);
            }
        }
        assert forall|x: u128| #[trigger] levels_have_id(cm.levels, x) implies (levels_have_id(
            levels,
            x,
        ) && x != id) by {
            let i = choose|i: int|
                0 <= i < cm.levels.len() && orders_have_id((#[trigger] cm.levels[i]).orders, x);
            if i == li {
                assert(orders_have_id(l.orders, x));
                assert(levels_have_id(levels, x));
                if x == id {
                    assert(orders_have_id(rest, id));
                    assert(false);
                }
            } else {
                assert(cm.levels[i] == levels[i]);
                assert(levels_have_id(levels, x));
                if x == id {
                    let j = choose|j: int|
                        0 <= j < levels[i].orders.len() && (#[trigger] levels[i].orders[j]).id == x;
                    assert(levels[i].orders[j] == cm.removed);
                    if i < li {
                        assert(levels[i].orders[j].id != levels[li].orders[oi].id);
                    } else {
                        assert(levels[li].orders[oi].id != levels[i].orders[j].id);
                    }
                    assert(false);
                }
            }
        }
        assert forall|x: u128| levels_have_id(levels, x) && x != id implies #[trigger]
            levels_have_id(cm.levels, x) by {
            let i = choose|i: int|
                0 <= i < levels.len() && orders_have_id((#[trigger] levels[i]).orders, x);
            if i == li {
                assert(orders_have_id(rest, x));
                assert(orders_have_id(cm.levels[li].orders, x));
                assert(levels_have_id(cm.levels, x));
            } else {
                assert(cm.levels[i] == levels[i]);
                assert(levels_have_id(cm.levels, x));
            }
        }
        assert forall|p: u64, x: u128| #[trigger] has_order_at(cm.levels, p, x) implies
            has_order_at(levels, p, x) by {
            let i = choose|i: int|
                0 <= i < cm.levels.len() && (#[trigger] cm.levels[i]).price == p && orders_have_id(
                    cm.levels[i].orders,
                    x,
                );
            if i == li {
                assert(orders_have_id(l.orders, x));
                assert(levels[li].price == p);
            } else {
                assert(cm.levels[i] == levels[i]);
            }
        }
        assert forall|p: u64, x: u128|
            #[trigger] has_order_at(levels, p, x) && x != id implies has_order_at(
            cm.levels,
            p,
            x,
        ) by {
            let i = choose|i: int|
                0 <= i < levels.len() && (#[trigger] levels[i]).price == p && orders_have_id(
                    levels[i].orders,
                    x,
                );
            if i == li {
                assert(orders_have_id(rest, x));
                assert(orders_have_id(cm.levels[li].orders, x));
                assert(cm.levels[li].price == p);
            } else {
                assert(cm.levels[i] == levels[i]);
            }
        }
        assert(cm.levels[0].price == levels[0].price);
    }
}

/// A trade reports exactly a fill, for the given taker.
pub open spec fn trade_matches_fill(t: Trade, f: Fill, taker: u128) -> bool {
    &&& t.maker_order_id == f.maker_id
    &&& t.price == f.price
    &&& t.quantity as int == f.quantity
    &&& t.taker_order_id == taker
}

/// A delta reports exactly a delta model.
pub open spec fn delta_matches(d: OrderBookDelta, m: DeltaModel) -> bool {
    &&& d.action == m.action
    &&& d.side == m.side
    &&& d.price == m.price
    &&& d.new_quantity as int == m.new_quantity
}

} // verus!
