//! The executable matching engine: price levels, the order-id index, and
//! the book itself, verified against the model in [`crate::model`].

use vstd::prelude::*;
use crate::types::{
    CancelError, DeltaAction, Order, OrderBookDelta, OrderBookLevel, OrderBookSnapshot, OrderSide,
    OrderType, Trade,
};
use vstd::string::*;
use crate::model::{
    BookModel, LevelModel, add_order_result, better_price, cancel_from_side, crosses,
    delta_matches, dms_of, fills_of, find_pos, has_order_at, insert_resting,
    lemma_cancel_from_side, lemma_find_pos, lemma_have_id_cons, lemma_insert_resting,
    lemma_level_pos_of_id, lemma_levels_have_id_cons, lemma_match_levels, lemma_match_orders,
    lemma_match_orders_rest_ids, lemma_order_pos_of_id, lemma_side_tail, lemma_sum_bound,
    lemma_sum_nonneg, lemma_sum_push, lemma_sum_remove, lemma_sum_update, level_open_wf,
    level_pos_of_id, level_wf, levels_have_id, match_levels, match_orders, order_fits_level,
    order_pos_of_id, orders_have_id, side_ids_distinct, side_levels, side_wf, sum_quants,
    trade_matches_fill,
};

verus! {

/// Relies on `uuid::Uuid::new_v4` (via `Uuid::as_u128`): a freshly drawn
/// random 128-bit identifier. Randomness admits no promise on the value.
#[verifier::external_body]
pub(crate) fn fresh_id() -> u128 {
    uuid::Uuid::new_v4().as_u128()
}

/// Relies on `chrono::Utc::now` (via `DateTime::timestamp_millis`): the
/// current UTC time in milliseconds. The clock admits no promise on the
/// value.
#[verifier::external_body]
pub(crate) fn now_millis() -> i64 {
    chrono::Utc::now().timestamp_millis()
}

impl Trade {
    /// Build a trade record with a fresh random id and the current time.
    pub fn new(taker_order_id: u128, maker_order_id: u128, price: u64, quantity: u64) -> (t:
        Trade)
        ensures
            t.taker_order_id == taker_order_id,
            t.maker_order_id == maker_order_id,
            t.price == price,
            t.quantity == quantity,
    {
        Trade {
            id: fresh_id(),
            taker_order_id,
            maker_order_id,
            price,
            quantity,
            timestamp: now_millis(),
        }
    }
}

/// A FIFO queue of resting orders at one price, with the cached aggregate
/// of their remaining quantities.
#[derive(Debug, Clone)]
pub struct PriceLevel {
    pub price: u64,
    pub total_quantity: u128,
    pub orders: Vec<Order>,
}

impl View for PriceLevel {
    type V = LevelModel;

    open spec fn view(&self) -> LevelModel {
        LevelModel { price: self.price, orders: self.orders@ }
    }
}

impl PriceLevel {
    /// The cached aggregate is exact and the level is well-formed.
    pub open spec fn wf(&self, side: OrderSide) -> bool {
        &&& self.total_quantity == sum_quants(self.orders@)
        &&& level_wf(self@, side)
    }
}

/// One entry of the order-id index: where a resting order lives.
#[derive(Debug, Clone, Copy, PartialEq, Eq, Structural)]
pub struct IndexEntry {
    pub id: u128,
    pub side: OrderSide,
    pub price: u64,
}

/// The models of a side's levels.
pub open spec fn models(levels: Seq<PriceLevel>) -> Seq<LevelModel> {
    levels.map_values(|l: PriceLevel| l@)
}

/// No two index entries carry the same order id.
pub open spec fn index_ids_unique(ix: Seq<IndexEntry>) -> bool {
    forall|k1: int, k2: int|
        0 <= k1 < k2 < ix.len() ==> (#[trigger] ix[k1]).id != (#[trigger] ix[k2]).id
}

/// Some index entry carries `id`.
pub open spec fn index_has_id(ix: Seq<IndexEntry>, id: u128) -> bool {
    exists|k: int| 0 <= k < ix.len() && (#[trigger] ix[k]).id == id
}

/// A per-symbol continuous limit-order-book matching engine.
///
/// Both sides are kept best-first (bids by descending, asks by ascending
/// price); every mutation is reported as trades and aggregate deltas.
pub struct MatchingEngine {
    pub symbol: String,
    pub bids: Vec<PriceLevel>,
    pub asks: Vec<PriceLevel>,
    pub order_index: Vec<IndexEntry>,
    pub last_traded_price: Option<u64>,
}

impl View for MatchingEngine {
    type V = BookModel;

    open spec fn view(&self) -> BookModel {
        BookModel {
            symbol: self.symbol@,
            bids: models(self.bids@),
            asks: models(self.asks@),
            last_traded_price: self.last_traded_price,
        }
    }
}

impl MatchingEngine {
    /// The exec levels of one side.
    pub open spec fn side_vec(&self, side: OrderSide) -> Seq<PriceLevel> {
        match side {
            OrderSide::Buy => self.bids@,
            OrderSide::Sell => self.asks@,
        }
    }

    /// Every index entry resolves to a resting order with its id at its
    /// recorded side and price.
    pub open spec fn entries_resolve(&self) -> bool {
        forall|k: int|
            0 <= k < self.order_index@.len() ==> has_order_at(
                side_levels(self@, (#[trigger] self.order_index@[k]).side),
                self.order_index@[k].price,
                self.order_index@[k].id,
            )
    }

    /// Every resting order of either side is recorded in the index.
    pub open spec fn orders_indexed(&self) -> bool {
        forall|side: OrderSide, i: int, j: int|
            #![trigger side_levels(self@, side)[i].orders[j]]
            0 <= i < side_levels(self@, side).len() && 0 <= j < side_levels(
                self@,
                side,
            )[i].orders.len() ==> self.order_index@.contains(
                IndexEntry {
                    id: side_levels(self@, side)[i].orders[j].id,
                    side: side,
                    price: side_levels(self@, side)[i].price,
                },
            )
    }

    /// The exact caches of a side's levels.
    pub open spec fn side_cached(levels: Seq<PriceLevel>) -> bool {
        forall|i: int|
            0 <= i < levels.len() ==> (#[trigger] levels[i]).total_quantity == sum_quants(
                levels[i].orders@,
            )
    }

    /// The best bid is strictly below the best ask whenever both exist.
    pub open spec fn uncrossed(&self) -> bool {
        self.bids@.len() > 0 && self.asks@.len() > 0 ==> self.bids@[0].price < self.asks@[0].price
    }

    /// Well-formedness of the whole engine: sorted well-formed sides with
    /// exact aggregates, an index in exact correspondence with the resting
    /// orders, and an uncrossed book.
    pub open spec fn wf(&self) -> bool {
        &&& side_wf(OrderSide::Buy, self@.bids)
        &&& side_wf(OrderSide::Sell, self@.asks)
        &&& Self::side_cached(self.bids@)
        &&& Self::side_cached(self.asks@)
        &&& index_ids_unique(self.order_index@)
        &&& self.entries_resolve()
        &&& self.orders_indexed()
        &&& self.uncrossed()
    }

    /// An order with `id` rests somewhere in the book.
    pub open spec fn has_resting(&self, id: u128) -> bool {
        levels_have_id(self@.bids, id) || levels_have_id(self@.asks, id)
    }

    /// An empty book for `symbol`.
    pub fn new(symbol: String) -> (e: MatchingEngine)
        ensures
            e.wf(),
            e@.symbol == symbol@,
            e@.bids.len() == 0,
            e@.asks.len() == 0,
            e@.last_traded_price is None,
    {
        let e = MatchingEngine {
            symbol,
            bids: Vec::new(),
            asks: Vec::new(),
            order_index: Vec::new(),
            last_traded_price: None,
        };
        proof {
            assert(e@.bids =~= Seq::<LevelModel>::empty());
            assert(e@.asks =~= Seq::<LevelModel>::empty());
        }
        e
    }

    /// The price of the most recent trade the book has produced, if any.
    pub fn get_last_traded_price(&self) -> (r: Option<u64>)
        ensures
            r == self@.last_traded_price,
    {
        self.last_traded_price
    }
}

/// Removing the unique index entry carrying `id` keeps exactly the
/// entries with other ids, in order.
proof fn lemma_remove_entry_membership(s: Seq<IndexEntry>, k: int, id: u128)
    requires
        0 <= k < s.len(),
        s[k].id == id,
        index_ids_unique(s),
    ensures
        index_ids_unique(s.remove(k)),
        forall|e: IndexEntry| s.remove(k).contains(e) <==> (s.contains(e) && e.id != id),
{
    let r = s.remove(k);
    s.remove_ensures(k);
    assert forall|e: IndexEntry| r.contains(e) implies (s.contains(e) && e.id != id) by {
        let j = choose|j: int| 0 <= j < r.len() && r[j] == e;
        if j < k {
            assert(s[j] == e);
        } else {
            assert(s[j + 1] == e);
        }
    }
    assert forall|e: IndexEntry| s.contains(e) && e.id != id implies r.contains(e) by {
        let j = choose|j: int| 0 <= j < s.len() && s[j] == e;
        if j < k {
            assert(r[j] == e);
        } else {
            assert(j != k);
            assert(r[j - 1] == e);
        }
    }
    assert forall|k1: int, k2: int| 0 <= k1 < k2 < r.len() implies (#[trigger] r[k1]).id != (
    #[trigger] r[k2]).id by {
        let a = if k1 < k {
            k1
        } else {
            k1 + 1
        };
        let b = if k2 < k {
            k2
        } else {
            k2 + 1
        };
        assert(r[k1] == s[a]);
        assert(r[k2] == s[b]);
    }
}

/// Position of the index entry carrying `id`, if one exists.
fn find_entry_pos(ix: &Vec<IndexEntry>, id: u128) -> (r: Option<usize>)
    ensures
        match r {
            Some(k) => k < ix@.len() && ix@[k as int].id == id,
            None => !index_has_id(ix@, id),
        },
{
    let mut k: usize = 0;
    while k < ix.len()
        invariant
            0 <= k <= ix@.len(),
            forall|k2: int| 0 <= k2 < k ==> (#[trigger] ix@[k2]).id != id,
        decreases ix@.len() - k,
    {
        if ix[k].id == id {
            return Some(k);
        }
        k += 1;
    }
    None
}

/// Drop the index entry carrying `id`, if any.
fn remove_index_entry(ix: &mut Vec<IndexEntry>, id: u128)
    requires
        index_ids_unique(old(ix)@),
    ensures
        index_ids_unique(final(ix)@),
        forall|e: IndexEntry| final(ix)@.contains(e) <==> (old(ix)@.contains(e) && e.id != id),
{
    match find_entry_pos(ix, id) {
        Some(k) => {
            proof {
                lemma_remove_entry_membership(ix@, k as int, id);
            }
            ix.remove(k);
        },
        None => {
            proof {
                assert forall|e: IndexEntry| ix@.contains(e) implies e.id != id by {
                    let j = choose|j: int| 0 <= j < ix@.len() && ix@[j] == e;
                    assert(ix@[j].id != id);
                }
            }
        },
    }
}

/// Match a taker against one level's FIFO from the front: trade
/// `min(taker, maker)` with each maker, pop makers that reach zero and
/// drop them from the index, until the taker is exhausted or the level
/// empties.
fn match_one_level(
    ix: &mut Vec<IndexEntry>,
    taker_id: u128,
    taker_q: u64,
    level: &mut PriceLevel,
    trades: &mut Vec<Trade>,
    maker_side: OrderSide,
) -> (new_q: u64)
    requires
        old(level).total_quantity == sum_quants(old(level).orders@),
        level_open_wf(old(level)@, maker_side),
        index_ids_unique(old(ix)@),
    ensures
        ({
            let lm = match_orders(taker_q as int, old(level).orders@, old(level).price);
            &&& new_q as int == lm.taker_left
            &&& final(level).orders@ == lm.rest
            &&& final(level).price == old(level).price
            &&& final(level).total_quantity == sum_quants(lm.rest)
            &&& level_open_wf(final(level)@, maker_side)
            &&& final(trades)@.len() == old(trades)@.len() + lm.fills.len()
            &&& (forall|i: int| 0 <= i < old(trades)@.len() ==> final(trades)@[i] == old(trades)@[i])
            &&& (forall|k: int|
                0 <= k < lm.fills.len() ==> trade_matches_fill(
                    final(trades)@[old(trades)@.len() + k],
                    lm.fills[k],
                    taker_id,
                ))
        }),
        index_ids_unique(final(ix)@),
        forall|e: IndexEntry|
            final(ix)@.contains(e) <==> (old(ix)@.contains(e) && !(orders_have_id(
                old(level).orders@,
                e.id,
            ) && !orders_have_id(final(level).orders@, e.id))),
    decreases old(level).orders@.len(),
{
    let ghost orders0 = level.orders@;
    let ghost price0 = level.price;
    let ghost trades0 = trades@;
    let ghost ix0 = ix@;
    if taker_q == 0 || level.orders.len() == 0 {
        return taker_q;
    }
    let m = level.orders.remove(0);
    let t = if taker_q < m.quantity {
        taker_q
    } else {
        m.quantity
    };
    proof {
        assert(orders0[0] == m);
        assert(level.orders@ =~= orders0.drop_first());
        lemma_sum_nonneg(level.orders@);
    }
    let trade = Trade::new(taker_id, m.id, level.price, t);
    trades.push(trade);
    level.total_quantity = level.total_quantity - (t as u128);
    if t < m.quantity {
        let m2 = Order { quantity: m.quantity - t, ..m };
        level.orders.insert(0, m2);
        proof {
            let lm = match_orders(taker_q as int, orders0, price0);
            assert(level.orders@ =~= orders0.update(0, m2));
            lemma_sum_update(orders0, 0, m2);
            assert forall|j1: int, j2: int|
                0 <= j1 < j2 < level.orders@.len() implies (#[trigger] level.orders@[j1]).id != (
            #[trigger] level.orders@[j2]).id by {
                assert(level.orders@[j1].id == orders0[j1].id);
                assert(level.orders@[j2].id == orders0[j2].id);
            }
            assert forall|id: u128| #[trigger] orders_have_id(orders0, id) implies orders_have_id(
                level.orders@,
                id,
            ) by {
                let j = choose|j: int| 0 <= j < orders0.len() && (#[trigger] orders0[j]).id == id;
                assert(level.orders@[j].id == id);
            }
            assert(trades@ == trades0.push(trade));
            assert(trades@[trades0.len() as int] == trade);
            assert(trade_matches_fill(trades@[trades0.len() as int], lm.fills[0], taker_id));
        }
        return taker_q - t;
    } else {
        remove_index_entry(ix, m.id);
        let ghost ix1 = ix@;
        let ghost trades1 = trades@;
        let ghost rest1 = level.orders@;
        proof {
            assert forall|j1: int, j2: int|
                0 <= j1 < j2 < rest1.len() implies (#[trigger] rest1[j1]).id != (
            #[trigger] rest1[j2]).id by {
                assert(rest1[j1].id == orders0[j1 + 1].id);
                assert(rest1[j2].id == orders0[j2 + 1].id);
            }
            assert forall|j: int|
                0 <= j < rest1.len() implies crate::model::order_fits_level(
                #[trigger] rest1[j], price0, maker_side) by {
                assert(rest1[j] == orders0[j + 1]);
            }
        }
        let q2 = match_one_level(ix, taker_id, taker_q - t, level, trades, maker_side);
        proof {
            let sub = match_orders((taker_q - t) as int, rest1, price0);
            let lm = match_orders(taker_q as int, orders0, price0);
            assert(lm.fills == seq![
                crate::model::Fill { maker_id: m.id, price: price0, quantity: m.quantity as int },
            ] + sub.fills);
            assert(lm.rest == sub.rest);
            assert(lm.taker_left == sub.taker_left);
            // trades: pushed head trade, then the recursion's fills
            assert(trades1 == trades0.push(trade));
            assert forall|k: int| 0 <= k < lm.fills.len() implies trade_matches_fill(
                trades@[trades0.len() + k],
                lm.fills[k],
                taker_id,
            ) by {
                if k == 0 {
                    assert(trades@[trades0.len() as int] == trades1[trades0.len() as int]);
                    assert(trades1[trades0.len() as int] == trade);
                } else {
                    assert(trades@[trades1.len() + (k - 1)] == trades@[trades0.len() + k]);
                    assert(trade_matches_fill(
                        trades@[trades1.len() + (k - 1)],
                        sub.fills[k - 1],
                        taker_id,
                    ));
                }
            }
            // the index change over the whole step
            lemma_match_orders_rest_ids((taker_q - t) as int, rest1, price0);
            assert forall|e: IndexEntry|
                ix@.contains(e) <==> (ix0.contains(e) && !(orders_have_id(orders0, e.id)
                    && !orders_have_id(level.orders@, e.id))) by {
                lemma_have_id_cons(orders0, e.id);
                if ix@.contains(e) {
                    assert(ix1.contains(e));
                    assert(ix0.contains(e) && e.id != m.id);
                    if orders_have_id(orders0, e.id) && !orders_have_id(level.orders@, e.id) {
                        assert(orders_have_id(rest1, e.id));
                        assert(false);
                    }
                }
                if ix0.contains(e) && !(orders_have_id(orders0, e.id) && !orders_have_id(
                    level.orders@,
                    e.id,
                )) {
                    if e.id == m.id {
                        assert(orders_have_id(orders0, m.id));
                        assert(orders_have_id(level.orders@, m.id));
                        assert(orders_have_id(rest1, m.id));
                        let j = choose|j: int|
                            0 <= j < rest1.len() && (#[trigger] rest1[j]).id == m.id;
                        assert(orders0[j + 1].id == orders0[0].id);
                        assert(false);
                    }
                    assert(ix1.contains(e));
                    if orders_have_id(rest1, e.id) && !orders_have_id(level.orders@, e.id) {
                        assert(orders_have_id(orders0, e.id));
                        assert(false);
                    }
                    assert(ix@.contains(e));
                }
            }
        }
        return q2;
    }
}

/// Executable counterpart of [`crosses`].
fn crosses_exec(taker_side: OrderSide, limit: Option<u64>, level_price: u64) -> (r: bool)
    ensures
        r == crosses(taker_side, limit, level_price),
{
    match limit {
        None => true,
        Some(l) => match taker_side {
            OrderSide::Buy => level_price <= l,
            OrderSide::Sell => level_price >= l,
        },
    }
}

/// Sweep a taker across the levels of the opposing side, best-first:
/// match whole levels while the crossing condition holds and quantity
/// remains, removing emptied levels and emitting one delta per touched
/// level.
fn sweep(
    levels: &mut Vec<PriceLevel>,
    ix: &mut Vec<IndexEntry>,
    taker_side: OrderSide,
    limit: Option<u64>,
    taker_id: u128,
    taker_q: u64,
    trades: &mut Vec<Trade>,
    deltas: &mut Vec<OrderBookDelta>,
) -> (new_q: u64)
    requires
        side_wf(taker_side.spec_opposite(), models(old(levels)@)),
        side_ids_distinct(models(old(levels)@)),
        MatchingEngine::side_cached(old(levels)@),
        index_ids_unique(old(ix)@),
    ensures
        ({
            let sm = match_levels(taker_side, limit, taker_q as int, models(old(levels)@));
            &&& new_q as int == sm.taker_left
            &&& models(final(levels)@) == sm.levels
            &&& MatchingEngine::side_cached(final(levels)@)
            &&& final(trades)@.len() == old(trades)@.len() + sm.fills.len()
            &&& (forall|i: int| 0 <= i < old(trades)@.len() ==> final(trades)@[i] == old(trades)@[i])
            &&& (forall|k: int|
                0 <= k < sm.fills.len() ==> trade_matches_fill(
                    final(trades)@[old(trades)@.len() + k],
                    sm.fills[k],
                    taker_id,
                ))
            &&& final(deltas)@.len() == old(deltas)@.len() + sm.deltas.len()
            &&& (forall|i: int| 0 <= i < old(deltas)@.len() ==> final(deltas)@[i] == old(deltas)@[i])
            &&& (forall|k: int|
                0 <= k < sm.deltas.len() ==> delta_matches(
                    final(deltas)@[old(deltas)@.len() + k],
                    sm.deltas[k],
                ))
        }),
        index_ids_unique(final(ix)@),
        forall|e: IndexEntry|
            final(ix)@.contains(e) <==> (old(ix)@.contains(e) && !(levels_have_id(
                models(old(levels)@),
                e.id,
            ) && !levels_have_id(models(final(levels)@), e.id))),
    decreases old(levels)@.len(),
{
    let ghost levels0 = levels@;
    let ghost m0 = models(levels@);
    let ghost trades0 = trades@;
    let ghost deltas0 = deltas@;
    let ghost ix0 = ix@;
    let mside = taker_side.opposite();
    if taker_q == 0 || levels.len() == 0 {
        return taker_q;
    }
    let p0 = levels[0].price;
    proof {
        assert(m0[0] == levels0[0]@);
    }
    if !crosses_exec(taker_side, limit, p0) {
        return taker_q;
    }
    let mut level = levels.remove(0);
    let ghost level0 = level;
    proof {
        assert(level0@ == m0[0]);
        assert(models(levels@) =~= m0.drop_first());
        assert(level_wf(m0[0], mside));
        assert forall|j: int| 0 <= j < level0.orders@.len() implies (
        #[trigger] level0.orders@[j]).quantity > 0 by {
            assert(crate::model::order_fits_level(m0[0].orders[j], m0[0].price, mside));
        }
        lemma_side_tail(mside, m0);
        assert forall|i: int| 0 <= i < levels@.len() implies (#[trigger] levels@[i]).total_quantity
            == sum_quants(levels@[i].orders@) by {
            assert(levels@[i] == levels0[i + 1]);
        }
    }
    let q2 = match_one_level(ix, taker_id, taker_q, &mut level, trades, mside);
    let ghost lm = match_orders(taker_q as int, level0.orders@, level0.price);
    let ghost sm = match_levels(taker_side, limit, taker_q as int, m0);
    let ghost trades1 = trades@;
    let ghost ix1 = ix@;
    proof {
        lemma_match_orders(taker_q as int, level0.orders@, level0.price);
    }
    if level.orders.len() == 0 {
        deltas.push(
            OrderBookDelta {
                action: DeltaAction::Delete,
                side: mside,
                price: level.price,
                new_quantity: 0,
            },
        );
        let ghost deltas1 = deltas@;
        let q3 = sweep(levels, ix, taker_side, limit, taker_id, q2, trades, deltas);
        proof {
            let tail = m0.drop_first();
            let sub = match_levels(taker_side, limit, lm.taker_left, tail);
            assert(sm.fills == lm.fills + sub.fills);
            assert(sm.deltas == seq![
                crate::model::DeltaModel {
                    action: DeltaAction::Delete,
                    side: mside,
                    price: m0[0].price,
                    new_quantity: 0,
                },
            ] + sub.deltas);
            assert(sm.taker_left == sub.taker_left);
            assert(sm.levels == sub.levels);
            // trades compose
            assert forall|k: int| 0 <= k < sm.fills.len() implies trade_matches_fill(
                trades@[trades0.len() + k],
                sm.fills[k],
                taker_id,
            ) by {
                if k < lm.fills.len() {
                    assert(trades@[trades0.len() + k] == trades1[trades0.len() + k]);
                    assert(trade_matches_fill(trades1[trades0.len() + k], lm.fills[k], taker_id));
                } else {
                    assert(trade_matches_fill(
                        trades@[trades1.len() + (k - lm.fills.len())],
                        sub.fills[k - lm.fills.len()],
                        taker_id,
                    ));
                }
            }
            // deltas compose
            assert(deltas1 == deltas0.push(deltas1.last()));
            assert forall|k: int| 0 <= k < sm.deltas.len() implies delta_matches(
                deltas@[deltas0.len() + k],
                sm.deltas[k],
            ) by {
                if k == 0 {
                    assert(deltas@[deltas0.len() as int] == deltas1[deltas0.len() as int]);
                } else {
                    assert(delta_matches(
                        deltas@[deltas1.len() + (k - 1)],
                        sub.deltas[k - 1],
                    ));
                }
            }
            // the index change composes across the two steps
            lemma_match_levels(taker_side, limit, lm.taker_left, tail);
            assert forall|e: IndexEntry|
                ix@.contains(e) <==> (ix0.contains(e) && !(levels_have_id(m0, e.id)
                    && !levels_have_id(models(levels@), e.id))) by {
                lemma_levels_have_id_cons(m0, e.id);
                assert(!orders_have_id(lm.rest, e.id));
                if ix@.contains(e) {
                    assert(ix1.contains(e));
                    assert(ix0.contains(e));
                    assert(!orders_have_id(level0.orders@, e.id));
                    assert(!(levels_have_id(tail, e.id) && !levels_have_id(models(levels@), e.id)));
                    if levels_have_id(m0, e.id) && !levels_have_id(models(levels@), e.id) {
                        assert(levels_have_id(tail, e.id));
                        assert(false);
                    }
                }
                if ix0.contains(e) && !(levels_have_id(m0, e.id) && !levels_have_id(
                    models(levels@),
                    e.id,
                )) {
                    if orders_have_id(level0.orders@, e.id) {
                        assert(levels_have_id(m0, e.id));
                        assert(levels_have_id(models(levels@), e.id));
                        assert(levels_have_id(tail, e.id));
                        // in the head level and in the tail: contradiction
                        let j1 = choose|j: int|
                            0 <= j < level0.orders@.len() && (#[trigger] level0.orders@[j]).id
                                == e.id;
                        let i2 = choose|i: int|
                            0 <= i < tail.len() && orders_have_id((#[trigger] tail[i]).orders, e.id);
                        let j2 = choose|j: int|
                            0 <= j < tail[i2].orders.len() && (#[trigger] tail[i2].orders[j]).id
                                == e.id;
                        assert(tail[i2] == m0[i2 + 1]);
                        assert(m0[0].orders[j1].id == m0[i2 + 1].orders[j2].id);
                        assert(false);
                    }
                    assert(ix1.contains(e));
                    if levels_have_id(tail, e.id) && !levels_have_id(models(levels@), e.id) {
                        assert(levels_have_id(m0, e.id));
                        assert(false);
                    }
                    assert(ix@.contains(e));
                }
            }
        }
        q3
    } else {
        proof {
            assert(q2 == 0);
        }
        deltas.push(
            OrderBookDelta {
                action: DeltaAction::Update,
                side: mside,
                price: level.price,
                new_quantity: level.total_quantity,
            },
        );
        let ghost nl = LevelModel { price: level0.price, orders: lm.rest };
        levels.insert(0, level);
        proof {
            assert(level@ == nl);
            assert(models(levels@) =~= m0.update(0, nl));
            assert(sm.levels == m0.update(0, nl));
            assert(sm.fills == lm.fills);
            assert(sm.taker_left == lm.taker_left);
            assert(delta_matches(
                deltas@[deltas0.len() as int],
                crate::model::DeltaModel {
                    action: DeltaAction::Update,
                    side: mside,
                    price: m0[0].price,
                    new_quantity: sum_quants(lm.rest),
                },
            ));
            assert forall|i: int| 0 <= i < levels@.len() implies (
            #[trigger] levels@[i]).total_quantity == sum_quants(levels@[i].orders@) by {
                if i > 0 {
                    assert(levels@[i] == levels0[i]);
                }
            }
            // the index change: only ids consumed from the head level left
            assert forall|e: IndexEntry|
                ix@.contains(e) <==> (ix0.contains(e) && !(levels_have_id(m0, e.id)
                    && !levels_have_id(models(levels@), e.id))) by {
                lemma_levels_have_id_cons(m0, e.id);
                lemma_levels_have_id_cons(models(levels@), e.id);
                assert(models(levels@).drop_first() =~= m0.drop_first());
                if ix@.contains(e) {
                    assert(ix0.contains(e));
                    assert(!(orders_have_id(level0.orders@, e.id) && !orders_have_id(
                        lm.rest,
                        e.id,
                    )));
                    if levels_have_id(m0, e.id) && !levels_have_id(models(levels@), e.id) {
                        if orders_have_id(level0.orders@, e.id) {
                            assert(orders_have_id(lm.rest, e.id));
                            assert(orders_have_id(models(levels@)[0].orders, e.id));
                            assert(false);
                        } else {
                            assert(levels_have_id(m0.drop_first(), e.id));
                            assert(levels_have_id(models(levels@), e.id));
                            assert(false);
                        }
                    }
                }
                if ix0.contains(e) && !(levels_have_id(m0, e.id) && !levels_have_id(
                    models(levels@),
                    e.id,
                )) {
                    if orders_have_id(level0.orders@, e.id) && !orders_have_id(lm.rest, e.id) {
                        assert(levels_have_id(m0, e.id));
                        assert(levels_have_id(models(levels@), e.id));
                        if orders_have_id(models(levels@)[0].orders, e.id) {
                            assert(orders_have_id(lm.rest, e.id));
                            assert(false);
                        } else {
                            assert(levels_have_id(m0.drop_first(), e.id));
                            // in the head level and deeper: contradiction
                            let j1 = choose|j: int|
                                0 <= j < level0.orders@.len() && (#[trigger] level0.orders@[j]).id
                                    == e.id;
                            let i2 = choose|i: int|
                                0 <= i < m0.drop_first().len() && orders_have_id(
                                    (#[trigger] m0.drop_first()[i]).orders,
                                    e.id,
                                );
                            let j2 = choose|j: int|
                                0 <= j < m0.drop_first()[i2].orders.len() && (
                                #[trigger] m0.drop_first()[i2].orders[j]).id == e.id;
                            assert(m0.drop_first()[i2] == m0[i2 + 1]);
                            assert(m0[0].orders[j1].id == m0[i2 + 1].orders[j2].id);
                            assert(false);
                        }
                    }
                    assert(ix@.contains(e));
                }
            }
        }
        q2
    }
}

/// Executable counterpart of [`better_price`].
fn better_price_exec(side: OrderSide, a: u64, b: u64) -> (r: bool)
    ensures
        r == better_price(side, a, b),
{
    match side {
        OrderSide::Buy => a > b,
        OrderSide::Sell => a < b,
    }
}

/// Append `order` to the level at its price on its own side, creating
/// the level at its sorted position if absent; the returned delta
/// reports the level's aggregate after the addition.
fn rest_order(levels: &mut Vec<PriceLevel>, side: OrderSide, order: Order) -> (d: OrderBookDelta)
    requires
        side_wf(side, models(old(levels)@)),
        MatchingEngine::side_cached(old(levels)@),
        order_fits_level(order, order.price, side),
        !levels_have_id(models(old(levels)@), order.id),
    ensures
        ({
            let rr = insert_resting(side, models(old(levels)@), order);
            &&& models(final(levels)@) == rr.levels
            &&& MatchingEngine::side_cached(final(levels)@)
            &&& delta_matches(d, rr.delta)
        }),
{
    let ghost levels0 = levels@;
    let ghost m0 = models(levels@);
    let n = levels.len();
    let mut i: usize = 0;
    while i < n
        invariant
            0 <= i <= n,
            n == levels@.len(),
            levels@ == levels0,
            forall|k: int| 0 <= k < i ==> better_price(side, (#[trigger] levels@[k]).price, order.price),
        ensures
            0 <= i <= n,
            levels@ == levels0,
            forall|k: int| 0 <= k < i ==> better_price(side, (#[trigger] levels@[k]).price, order.price),
            i < n ==> !better_price(side, levels@[i as int].price, order.price),
        decreases n - i,
    {
        if !better_price_exec(side, levels[i].price, order.price) {
            break;
        }
        i += 1;
    }
    proof {
        lemma_find_pos(side, m0, order.price);
        let fp = find_pos(side, m0, order.price);
        assert forall|k: int| 0 <= k < i implies better_price(
            side,
            (#[trigger] m0[k]).price,
            order.price,
        ) by {
            assert(m0[k] == levels0[k]@);
        }
        if fp < i {
            assert(better_price(side, m0[fp].price, order.price));
            assert(m0[fp] == levels0[fp]@);
            assert(false);
        }
        if i < fp {
            assert(better_price(side, m0[i as int].price, order.price));
            assert(m0[i as int] == levels0[i as int]@);
            assert(false);
        }
        assert(fp == i);
    }
    if i < n && levels[i].price == order.price {
        let mut lvl = levels.remove(i);
        let n_orders = lvl.orders.len();
        proof {
            assert(lvl@ == m0[i as int]);
            lemma_sum_bound(lvl.orders@);
            assert(lvl.orders@.len() <= usize::MAX);
            assert(lvl.orders@.len() * (u64::MAX as int) + (u64::MAX as int) <= (usize::MAX as int
                + 1) * (u64::MAX as int)) by (nonlinear_arith)
                requires
                    lvl.orders@.len() <= usize::MAX,
            ;
            assert((usize::MAX as int + 1) * (u64::MAX as int) <= u128::MAX as int)
                by (nonlinear_arith);
        }
        lvl.total_quantity = lvl.total_quantity + (order.quantity as u128);
        lvl.orders.push(order);
        proof {
            lemma_sum_push(m0[i as int].orders, order);
        }
        let total = lvl.total_quantity;
        levels.insert(i, lvl);
        proof {
            let rr = insert_resting(side, m0, order);
            let nl = LevelModel {
                price: order.price,
                orders: m0[i as int].orders.push(order),
            };
            assert(levels@[i as int]@ == nl);
            assert forall|k: int| 0 <= k < levels@.len() implies models(levels@)[k] == rr.levels[k] by {
                if k < i {
                    assert(levels@[k] == levels0[k]);
                    assert(rr.levels[k] == m0[k]);
                } else if k > i {
                    assert(levels@[k] == levels0[k]);
                    assert(rr.levels[k] == m0[k]);
                }
            }
            assert(models(levels@) =~= rr.levels);
            assert forall|k: int| 0 <= k < levels@.len() implies (
            #[trigger] levels@[k]).total_quantity == sum_quants(levels@[k].orders@) by {
                if k != i {
                    assert(levels@[k] == levels0[k]);
                }
            }
        }
        OrderBookDelta {
            action: DeltaAction::Update,
            side,
            price: order.price,
            new_quantity: total,
        }
    } else {
        let mut orders: Vec<Order> = Vec::new();
        orders.push(order);
        let lvl = PriceLevel {
            price: order.price,
            total_quantity: order.quantity as u128,
            orders,
        };
        levels.insert(i, lvl);
        proof {
            let rr = insert_resting(side, m0, order);
            let nl = LevelModel { price: order.price, orders: seq![order] };
            assert(lvl@ =~= nl);
            assert(sum_quants(nl.orders) == order.quantity) by {
                assert(nl.orders[0] == order);
                assert(sum_quants(Seq::<Order>::empty()) == 0);
                assert(nl.orders.drop_first() =~= Seq::<Order>::empty());
            }
            m0.insert_ensures(i as int, nl);
            assert forall|k: int| 0 <= k < levels@.len() implies models(levels@)[k]
                == rr.levels[k] by {
                if k < i {
                    assert(levels@[k] == levels0[k]);
                    assert(rr.levels[k] == m0[k]);
                } else if k > i {
                    assert(levels@[k] == levels0[k - 1]);
                    assert(rr.levels[k] == m0[k - 1]);
                } else {
                    assert(levels@[k] == lvl);
                    assert(rr.levels[k] == nl);
                }
            }
            assert(models(levels@) =~= rr.levels);
            assert forall|k: int| 0 <= k < levels@.len() implies (
            #[trigger] levels@[k]).total_quantity == sum_quants(levels@[k].orders@) by {
                if k < i {
                    assert(levels@[k] == levels0[k]);
                } else if k > i {
                    assert(levels@[k] == levels0[k - 1]);
                }
            }
        }
        OrderBookDelta {
            action: DeltaAction::New,
            side,
            price: order.price,
            new_quantity: order.quantity as u128,
        }
    }
}


/// After a residual limit order is rested on its own side, with its id
/// appended to the index, the whole engine is well-formed again.
proof fn lemma_wf_after_rest(mid: MatchingEngine, post: MatchingEngine, side: OrderSide, order: Order)
    requires
        mid.wf(),
        order_fits_level(order, order.price, side),
        order.price > 0,
        !mid.has_resting(order.id),
        ({
            let rr = insert_resting(side, models(mid.side_vec(side)), order);
            &&& models(post.side_vec(side)) == rr.levels
            &&& MatchingEngine::side_cached(post.side_vec(side))
            &&& post.side_vec(side.spec_opposite()) == mid.side_vec(side.spec_opposite())
            &&& post.order_index@ == mid.order_index@.push(
                IndexEntry { id: order.id, side: side, price: order.price },
            )
            &&& (post.side_vec(side.spec_opposite()).len() > 0 ==> !crosses(
                side,
                Some(order.price),
                models(post.side_vec(side.spec_opposite()))[0].price,
            ))
        }),
    ensures
        post.wf(),
{
    let opp = side.spec_opposite();
    let mm = models(mid.side_vec(side));
    let rr = insert_resting(side, mm, order);
    let entry = IndexEntry { id: order.id, side: side, price: order.price };
    lemma_wf_derived(&mid);
    assert(mm == side_levels(mid@, side) && side_wf(side, mm) && side_ids_distinct(mm)
        && !levels_have_id(mm, order.id)) by {
        if side == OrderSide::Buy {
            assert(mid.side_vec(side) == mid.bids@);
        } else {
            assert(mid.side_vec(side) == mid.asks@);
        }
    }
    lemma_insert_resting(side, mm, order);
    assert(models(post.side_vec(opp)) == models(mid.side_vec(opp)));
    assert(side_wf(OrderSide::Buy, post@.bids) && side_wf(OrderSide::Sell, post@.asks)) by {
        if side == OrderSide::Buy {
            assert(post@.bids == rr.levels);
            assert(post@.asks == mid@.asks);
        } else {
            assert(post@.asks == rr.levels);
            assert(post@.bids == mid@.bids);
        }
    }
    assert(MatchingEngine::side_cached(post.bids@) && MatchingEngine::side_cached(post.asks@)) by {
        if side == OrderSide::Buy {
            assert(post.side_vec(OrderSide::Buy) == post.bids@);
            assert(post.asks@ == mid.asks@);
        } else {
            assert(post.side_vec(OrderSide::Sell) == post.asks@);
            assert(post.bids@ == mid.bids@);
        }
    }
    assert(!index_has_id(mid.order_index@, order.id)) by {
        if index_has_id(mid.order_index@, order.id) {
            assert(levels_have_id(mid@.bids, order.id) || levels_have_id(mid@.asks, order.id));
            assert(false);
        }
    }
    assert(index_ids_unique(post.order_index@)) by {
        assert forall|k1: int, k2: int| 0 <= k1 < k2 < post.order_index@.len() implies (
        #[trigger] post.order_index@[k1]).id != (#[trigger] post.order_index@[k2]).id by {
            if k2 == mid.order_index@.len() {
                assert(post.order_index@[k1] == mid.order_index@[k1]);
                if mid.order_index@[k1].id == order.id {
                    assert(index_has_id(mid.order_index@, order.id));
                    assert(false);
                }
            } else {
                assert(post.order_index@[k1] == mid.order_index@[k1]);
                assert(post.order_index@[k2] == mid.order_index@[k2]);
            }
        }
    }
    assert(post.entries_resolve()) by {
        assert forall|k: int| 0 <= k < post.order_index@.len() implies has_order_at(
            side_levels(post@, (#[trigger] post.order_index@[k]).side),
            post.order_index@[k].price,
            post.order_index@[k].id,
        ) by {
            if k == mid.order_index@.len() {
                assert(post.order_index@[k] == entry);
                assert(has_order_at(rr.levels, order.price, order.id));
                assert(side_levels(post@, side) == rr.levels);
            } else {
                let e = post.order_index@[k];
                assert(e == mid.order_index@[k]);
                assert(has_order_at(side_levels(mid@, e.side), e.price, e.id));
                if e.side == side {
                    assert(side_levels(post@, side) == rr.levels);
                } else {
                    assert(side_levels(post@, e.side) == side_levels(mid@, e.side));
                }
            }
        }
    }
    assert(post.orders_indexed()) by {
        assert forall|s: OrderSide, i: int, j: int|
            #![trigger side_levels(post@, s)[i].orders[j]]
            0 <= i < side_levels(post@, s).len() && 0 <= j < side_levels(
                post@,
                s,
            )[i].orders.len() implies post.order_index@.contains(
            IndexEntry {
                id: side_levels(post@, s)[i].orders[j].id,
                side: s,
                price: side_levels(post@, s)[i].price,
            },
        ) by {
            let ls = side_levels(post@, s);
            let id = ls[i].orders[j].id;
            let p = ls[i].price;
            if s == side {
                assert(ls == rr.levels);
                assert(has_order_at(rr.levels, p, id)) by {
                    assert(orders_have_id(rr.levels[i].orders, id));
                }
                if p == order.price && id == order.id {
                    assert(post.order_index@[mid.order_index@.len() as int] == entry);
                    assert(post.order_index@.contains(entry));
                } else if has_order_at(mm, p, id) {
                    let i0 = choose|i0: int|
                        0 <= i0 < mm.len() && (#[trigger] mm[i0]).price == p && orders_have_id(
                            mm[i0].orders,
                            id,
                        );
                    let j0 = choose|j0: int|
                        0 <= j0 < mm[i0].orders.len() && (#[trigger] mm[i0].orders[j0]).id == id;
                    assert(side_levels(mid@, s) == mm);
                    assert(side_levels(mid@, s)[i0].orders[j0] == mm[i0].orders[j0]);
                    assert(mid.order_index@.contains(IndexEntry { id: id, side: s, price: p }));
                    let k = choose|k: int|
                        0 <= k < mid.order_index@.len() && mid.order_index@[k] == IndexEntry {
                            id: id,
                            side: s,
                            price: p,
                        };
                    assert(post.order_index@[k] == mid.order_index@[k]);
                    assert(post.order_index@.contains(IndexEntry { id: id, side: s, price: p }));
                } else {
                    assert(false);
                }
            } else {
                assert(ls == side_levels(mid@, s));
                assert(side_levels(mid@, s)[i].orders[j] == ls[i].orders[j]);
                assert(mid.order_index@.contains(IndexEntry { id: id, side: s, price: p }));
                let k = choose|k: int|
                    0 <= k < mid.order_index@.len() && mid.order_index@[k] == IndexEntry {
                        id: id,
                        side: s,
                        price: p,
                    };
                assert(post.order_index@[k] == mid.order_index@[k]);
                assert(post.order_index@.contains(IndexEntry { id: id, side: s, price: p }));
            }
        }
    }
    assert(post.uncrossed()) by {
        if post.bids@.len() > 0 && post.asks@.len() > 0 {
            if side == OrderSide::Buy {
                assert(post@.bids == rr.levels);
                assert(post.asks@ == mid.asks@);
                assert(models(post.side_vec(OrderSide::Sell))[0].price == post.asks@[0].price);
                assert(post.asks@[0].price > order.price);
                assert(post.bids@[0]@.price == rr.levels[0].price) by {
                    assert(models(post.bids@)[0] == post.bids@[0]@);
                }
                if mm.len() > 0 && rr.levels[0].price == mm[0].price {
                    assert(mid.bids@.len() > 0);
                    assert(mid.bids@[0]@.price == mm[0].price) by {
                        assert(models(mid.bids@)[0] == mid.bids@[0]@);
                    }
                }
            } else {
                assert(post@.asks == rr.levels);
                assert(post.bids@ == mid.bids@);
                assert(models(post.side_vec(OrderSide::Buy))[0].price == post.bids@[0].price);
                assert(post.bids@[0].price < order.price);
                assert(post.asks@[0]@.price == rr.levels[0].price) by {
                    assert(models(post.asks@)[0] == post.asks@[0]@);
                }
                if mm.len() > 0 && rr.levels[0].price == mm[0].price {
                    assert(mid.asks@.len() > 0);
                    assert(mid.asks@[0]@.price == mm[0].price) by {
                        assert(models(mid.asks@)[0] == mid.asks@[0]@);
                    }
                }
            }
        }
    }
}

/// Facts the index correspondence yields: ids are unique per side and
/// across sides, and membership in the book and in the index coincide.
proof fn lemma_wf_derived(e: &MatchingEngine)
    requires
        e.wf(),
    ensures
        side_ids_distinct(e@.bids),
        side_ids_distinct(e@.asks),
        forall|id: u128| !(levels_have_id(e@.bids, id) && levels_have_id(e@.asks, id)),
        forall|id: u128|
            #[trigger] index_has_id(e.order_index@, id) ==> (levels_have_id(e@.bids, id)
                || levels_have_id(e@.asks, id)),
        forall|id: u128| #[trigger] levels_have_id(e@.bids, id) ==> index_has_id(e.order_index@, id),
        forall|id: u128| #[trigger] levels_have_id(e@.asks, id) ==> index_has_id(e.order_index@, id),
{
    let ix = e.order_index@;
    assert forall|id: u128| #[trigger] levels_have_id(e@.bids, id) implies index_has_id(ix, id) by {
        let i = choose|i: int| 0 <= i < e@.bids.len() && orders_have_id((#[trigger] e@.bids[i]).orders, id);
        let j = choose|j: int| 0 <= j < e@.bids[i].orders.len() && (#[trigger] e@.bids[i].orders[j]).id == id;
        assert(side_levels(e@, OrderSide::Buy) == e@.bids);
        assert(side_levels(e@, OrderSide::Buy)[i].orders[j] == e@.bids[i].orders[j]);
        assert(ix.contains(
            IndexEntry { id: e@.bids[i].orders[j].id, side: OrderSide::Buy, price: e@.bids[i].price },
        ));
        let k = choose|k: int|
            0 <= k < ix.len() && ix[k] == IndexEntry {
                id: e@.bids[i].orders[j].id,
                side: OrderSide::Buy,
                price: e@.bids[i].price,
            };
        assert(ix[k].id == id);
    }
    assert forall|id: u128| #[trigger] levels_have_id(e@.asks, id) implies index_has_id(ix, id) by {
        let i = choose|i: int| 0 <= i < e@.asks.len() && orders_have_id((#[trigger] e@.asks[i]).orders, id);
        let j = choose|j: int| 0 <= j < e@.asks[i].orders.len() && (#[trigger] e@.asks[i].orders[j]).id == id;
        assert(side_levels(e@, OrderSide::Sell) == e@.asks);
        assert(side_levels(e@, OrderSide::Sell)[i].orders[j] == e@.asks[i].orders[j]);
        assert(ix.contains(
            IndexEntry { id: e@.asks[i].orders[j].id, side: OrderSide::Sell, price: e@.asks[i].price },
        ));
        let k = choose|k: int|
            0 <= k < ix.len() && ix[k] == IndexEntry {
                id: e@.asks[i].orders[j].id,
                side: OrderSide::Sell,
                price: e@.asks[i].price,
            };
        assert(ix[k].id == id);
    }
    assert forall|id: u128| #[trigger] index_has_id(ix, id) implies (levels_have_id(e@.bids, id)
        || levels_have_id(e@.asks, id)) by {
        let k = choose|k: int| 0 <= k < ix.len() && (#[trigger] ix[k]).id == id;
        assert(has_order_at(side_levels(e@, ix[k].side), ix[k].price, ix[k].id));
        let ls = side_levels(e@, ix[k].side);
        let i = choose|i: int|
            0 <= i < ls.len() && (#[trigger] ls[i]).price == ix[k].price && orders_have_id(
                ls[i].orders,
                id,
            );
        assert(levels_have_id(ls, id));
        if ix[k].side == OrderSide::Buy {
            assert(ls == e@.bids);
        } else {
            assert(ls == e@.asks);
        }
    }
    // two index entries for one id are impossible, so an id cannot sit in
    // two levels of a side, nor on both sides
    assert forall|i1: int, j1: int, i2: int, j2: int|
        #![trigger e@.bids[i1].orders[j1], e@.bids[i2].orders[j2]]
        0 <= i1 < i2 < e@.bids.len() && 0 <= j1 < e@.bids[i1].orders.len() && 0 <= j2
            < e@.bids[i2].orders.len() implies e@.bids[i1].orders[j1].id
        != e@.bids[i2].orders[j2].id by {
        if e@.bids[i1].orders[j1].id == e@.bids[i2].orders[j2].id {
            let id = e@.bids[i1].orders[j1].id;
            assert(side_levels(e@, OrderSide::Buy) == e@.bids);
            assert(side_levels(e@, OrderSide::Buy)[i1].orders[j1] == e@.bids[i1].orders[j1]);
            assert(side_levels(e@, OrderSide::Buy)[i2].orders[j2] == e@.bids[i2].orders[j2]);
            let e1 = IndexEntry { id: id, side: OrderSide::Buy, price: e@.bids[i1].price };
            let e2 = IndexEntry { id: id, side: OrderSide::Buy, price: e@.bids[i2].price };
            assert(ix.contains(e1));
            assert(ix.contains(e2));
            assert(better_price(OrderSide::Buy, e@.bids[i1].price, e@.bids[i2].price));
            assert(e1 != e2);
            let k1 = choose|k: int| 0 <= k < ix.len() && ix[k] == e1;
            let k2 = choose|k: int| 0 <= k < ix.len() && ix[k] == e2;
            assert(k1 != k2);
            assert(ix[k1].id == ix[k2].id);
            assert(false);
        }
    }
    assert forall|i1: int, j1: int, i2: int, j2: int|
        #![trigger e@.asks[i1].orders[j1], e@.asks[i2].orders[j2]]
        0 <= i1 < i2 < e@.asks.len() && 0 <= j1 < e@.asks[i1].orders.len() && 0 <= j2
            < e@.asks[i2].orders.len() implies e@.asks[i1].orders[j1].id
        != e@.asks[i2].orders[j2].id by {
        if e@.asks[i1].orders[j1].id == e@.asks[i2].orders[j2].id {
            let id = e@.asks[i1].orders[j1].id;
            assert(side_levels(e@, OrderSide::Sell) == e@.asks);
            assert(side_levels(e@, OrderSide::Sell)[i1].orders[j1] == e@.asks[i1].orders[j1]);
            assert(side_levels(e@, OrderSide::Sell)[i2].orders[j2] == e@.asks[i2].orders[j2]);
            let e1 = IndexEntry { id: id, side: OrderSide::Sell, price: e@.asks[i1].price };
            let e2 = IndexEntry { id: id, side: OrderSide::Sell, price: e@.asks[i2].price };
            assert(ix.contains(e1));
            assert(ix.contains(e2));
            assert(better_price(OrderSide::Sell, e@.asks[i1].price, e@.asks[i2].price));
            assert(e1 != e2);
            let k1 = choose|k: int| 0 <= k < ix.len() && ix[k] == e1;
            let k2 = choose|k: int| 0 <= k < ix.len() && ix[k] == e2;
            assert(k1 != k2);
            assert(ix[k1].id == ix[k2].id);
            assert(false);
        }
    }
    assert forall|id: u128| !(levels_have_id(e@.bids, id) && levels_have_id(e@.asks, id)) by {
        if levels_have_id(e@.bids, id) && levels_have_id(e@.asks, id) {
            let i1 = choose|i: int|
                0 <= i < e@.bids.len() && orders_have_id((#[trigger] e@.bids[i]).orders, id);
            let j1 = choose|j: int|
                0 <= j < e@.bids[i1].orders.len() && (#[trigger] e@.bids[i1].orders[j]).id == id;
            let i2 = choose|i: int|
                0 <= i < e@.asks.len() && orders_have_id((#[trigger] e@.asks[i]).orders, id);
            let j2 = choose|j: int|
                0 <= j < e@.asks[i2].orders.len() && (#[trigger] e@.asks[i2].orders[j]).id == id;
            assert(side_levels(e@, OrderSide::Buy) == e@.bids);
            assert(side_levels(e@, OrderSide::Sell) == e@.asks);
            assert(side_levels(e@, OrderSide::Buy)[i1].orders[j1] == e@.bids[i1].orders[j1]);
            assert(side_levels(e@, OrderSide::Sell)[i2].orders[j2] == e@.asks[i2].orders[j2]);
            let e1 = IndexEntry { id: id, side: OrderSide::Buy, price: e@.bids[i1].price };
            let e2 = IndexEntry { id: id, side: OrderSide::Sell, price: e@.asks[i2].price };
            assert(ix.contains(e1));
            assert(ix.contains(e2));
            assert(e1 != e2);
            let k1 = choose|k: int| 0 <= k < ix.len() && ix[k] == e1;
            let k2 = choose|k: int| 0 <= k < ix.len() && ix[k] == e2;
            assert(k1 != k2);
            assert(ix[k1].id == ix[k2].id);
            assert(false);
        }
    }
}

/// After a sweep of the maker side, with the index filtered of the
/// consumed makers, the whole engine is well-formed again.
proof fn lemma_wf_after_sweep(
    pre: MatchingEngine,
    post: MatchingEngine,
    taker_side: OrderSide,
    limit: Option<u64>,
    q: int,
)
    requires
        pre.wf(),
        q >= 0,
        ({
            let mside = taker_side.spec_opposite();
            let sm = match_levels(taker_side, limit, q, models(pre.side_vec(mside)));
            &&& models(post.side_vec(mside)) == sm.levels
            &&& post.side_vec(taker_side) == pre.side_vec(taker_side)
            &&& MatchingEngine::side_cached(post.side_vec(mside))
            &&& index_ids_unique(post.order_index@)
            &&& (forall|e: IndexEntry|
                post.order_index@.contains(e) <==> (pre.order_index@.contains(e) && !(
                levels_have_id(models(pre.side_vec(mside)), e.id) && !levels_have_id(
                    models(post.side_vec(mside)),
                    e.id,
                ))))
        }),
    ensures
        post.wf(),
        forall|id: u128| #[trigger] post.has_resting(id) ==> pre.has_resting(id),
{
    let mside = taker_side.spec_opposite();
    let pm = models(pre.side_vec(mside));
    let sm = match_levels(taker_side, limit, q, pm);
    lemma_wf_derived(&pre);
    assert(side_wf(mside, pm) && side_ids_distinct(pm)) by {
        if mside == OrderSide::Buy {
            assert(pm == pre@.bids);
        } else {
            assert(pm == pre@.asks);
        }
    }
    lemma_match_levels(taker_side, limit, q, pm);
    // sides of the post book
    assert(models(post.side_vec(taker_side)) == models(pre.side_vec(taker_side)));
    assert(post@.bids == models(post.side_vec(OrderSide::Buy)));
    assert(post@.asks == models(post.side_vec(OrderSide::Sell)));
    assert(side_wf(OrderSide::Buy, post@.bids) && side_wf(OrderSide::Sell, post@.asks)) by {
        if mside == OrderSide::Buy {
            assert(post@.bids == sm.levels);
            assert(post@.asks == pre@.asks);
        } else {
            assert(post@.asks == sm.levels);
            assert(post@.bids == pre@.bids);
        }
    }
    assert(MatchingEngine::side_cached(post.bids@) && MatchingEngine::side_cached(post.asks@)) by {
        if mside == OrderSide::Buy {
            assert(post.side_vec(OrderSide::Buy) == post.bids@);
            assert(post.side_vec(OrderSide::Sell) == post.asks@);
            assert(post.asks@ == pre.asks@);
        } else {
            assert(post.side_vec(OrderSide::Sell) == post.asks@);
            assert(post.side_vec(OrderSide::Buy) == post.bids@);
            assert(post.bids@ == pre.bids@);
        }
    }
    // every surviving index entry still resolves
    assert forall|k: int| 0 <= k < post.order_index@.len() implies has_order_at(
        side_levels(post@, (#[trigger] post.order_index@[k]).side),
        post.order_index@[k].price,
        post.order_index@[k].id,
    ) by {
        let e = post.order_index@[k];
        assert(post.order_index@.contains(e));
        assert(pre.order_index@.contains(e));
        let k0 = choose|k0: int| 0 <= k0 < pre.order_index@.len() && pre.order_index@[k0] == e;
        assert(has_order_at(side_levels(pre@, e.side), e.price, e.id));
        if e.side == mside {
            assert(side_levels(pre@, e.side) == pm);
            assert(levels_have_id(pm, e.id)) by {
                let i = choose|i: int|
                    0 <= i < pm.len() && (#[trigger] pm[i]).price == e.price && orders_have_id(
                        pm[i].orders,
                        e.id,
                    );
                assert(orders_have_id(pm[i].orders, e.id));
            }
            assert(levels_have_id(sm.levels, e.id));
            assert(has_order_at(sm.levels, e.price, e.id));
            assert(side_levels(post@, e.side) == sm.levels);
        } else {
            assert(side_levels(post@, e.side) == side_levels(pre@, e.side));
        }
    }
    // every resting order of the post book is still indexed
    assert forall|side: OrderSide, i: int, j: int|
        #![trigger side_levels(post@, side)[i].orders[j]]
        0 <= i < side_levels(post@, side).len() && 0 <= j < side_levels(
            post@,
            side,
        )[i].orders.len() implies post.order_index@.contains(
        IndexEntry {
            id: side_levels(post@, side)[i].orders[j].id,
            side: side,
            price: side_levels(post@, side)[i].price,
        },
    ) by {
        let ls = side_levels(post@, side);
        let id = ls[i].orders[j].id;
        let p = ls[i].price;
        if side == mside {
            assert(ls == sm.levels);
            assert(has_order_at(sm.levels, p, id)) by {
                assert(orders_have_id(sm.levels[i].orders, id));
            }
            assert(has_order_at(pm, p, id));
            let i0 = choose|i0: int|
                0 <= i0 < pm.len() && (#[trigger] pm[i0]).price == p && orders_have_id(
                    pm[i0].orders,
                    id,
                );
            let j0 = choose|j0: int|
                0 <= j0 < pm[i0].orders.len() && (#[trigger] pm[i0].orders[j0]).id == id;
            assert(side_levels(pre@, mside) == pm);
            assert(pre.order_index@.contains(IndexEntry { id: id, side: mside, price: p }));
            assert(levels_have_id(sm.levels, id)) by {
                assert(orders_have_id(sm.levels[i].orders, id));
            }
            assert(post.order_index@.contains(IndexEntry { id: id, side: mside, price: p }));
        } else {
            assert(ls == side_levels(pre@, side));
            assert(pre.order_index@.contains(IndexEntry { id: id, side: side, price: p }));
            assert(levels_have_id(side_levels(pre@, side), id)) by {
                assert(orders_have_id(side_levels(pre@, side)[i].orders, id));
            }
            if levels_have_id(pm, id) {
                // the id would rest on both sides of the pre book
                if mside == OrderSide::Buy {
                    assert(pm == pre@.bids);
                    assert(side_levels(pre@, side) == pre@.asks);
                    assert(false);
                } else {
                    assert(pm == pre@.asks);
                    assert(side_levels(pre@, side) == pre@.bids);
                    assert(false);
                }
            }
            assert(post.order_index@.contains(IndexEntry { id: id, side: side, price: p }));
        }
    }
    // the spread cannot have crossed: the maker side only got worse
    assert(post.uncrossed()) by {
        if post.bids@.len() > 0 && post.asks@.len() > 0 {
            let k0 = pm.len() - sm.levels.len();
            if mside == OrderSide::Sell {
                // taker was a buyer; asks shrank
                assert(post@.asks == sm.levels);
                assert(sm.levels[0].price == pm[k0].price);
                assert(pre.asks@.len() > 0);
                assert(pre.bids@.len() > 0) by {
                    assert(post@.bids == pre@.bids);
                }
                if k0 > 0 {
                    assert(better_price(OrderSide::Sell, pm[0].price, pm[k0].price));
                }
                assert(pre@.asks[0].price <= sm.levels[0].price) by {
                    assert(pm == pre@.asks);
                }
                assert(post.bids@[0].price == pre.bids@[0].price) by {
                    assert(post.side_vec(OrderSide::Buy) == pre.side_vec(OrderSide::Buy));
                }
                assert(post.asks@[0]@.price == sm.levels[0].price) by {
                    assert(models(post.asks@)[0] == post.asks@[0]@);
                }
                assert(pre.asks@[0]@.price == pm[0].price);
            } else {
                // taker was a seller; bids shrank
                assert(post@.bids == sm.levels);
                assert(sm.levels[0].price == pm[k0].price);
                if k0 > 0 {
                    assert(better_price(OrderSide::Buy, pm[0].price, pm[k0].price));
                }
                assert(post.asks@[0].price == pre.asks@[0].price) by {
                    assert(post.side_vec(OrderSide::Sell) == pre.side_vec(OrderSide::Sell));
                }
                assert(post.bids@[0]@.price == sm.levels[0].price) by {
                    assert(models(post.bids@)[0] == post.bids@[0]@);
                }
                assert(pre.bids@[0]@.price == pm[0].price);
            }
        }
    }
    assert forall|id: u128| #[trigger] post.has_resting(id) implies pre.has_resting(id) by {
        if mside == OrderSide::Buy {
            assert(post@.asks == pre@.asks);
            if levels_have_id(post@.bids, id) {
                assert(levels_have_id(pm, id));
            }
        } else {
            assert(post@.bids == pre@.bids);
            if levels_have_id(post@.asks, id) {
                assert(levels_have_id(pm, id));
            }
        }
    }
}


impl MatchingEngine {
    /// Match a market order against the whole opposing side, best-first;
    /// any unfilled residual is discarded silently.
    fn process_market_order(&mut self, order: Order) -> (r: (Vec<Trade>, Vec<OrderBookDelta>))
        requires
            old(self).wf(),
            order.order_type == OrderType::Market,
            order.quantity > 0,
        ensures
            final(self).wf(),
            ({
                let ar = add_order_result(old(self)@, order);
                &&& final(self)@ == ar.book
                &&& fills_of(r.0@) == ar.fills
                &&& dms_of(r.1@) == ar.deltas
            }),
            forall|i: int|
                0 <= i < r.0@.len() ==> (#[trigger] r.0@[i]).taker_order_id == order.id
                    && r.0@[i].quantity > 0 && r.0@[i].price > 0 && levels_have_id(
                    side_levels(old(self)@, order.side.spec_opposite()),
                    r.0@[i].maker_order_id,
                ),
            forall|id: u128| #[trigger] final(self).has_resting(id) ==> old(self).has_resting(id),
    {
        let ghost pre = *self;
        let mut trades: Vec<Trade> = Vec::new();
        let mut deltas: Vec<OrderBookDelta> = Vec::new();
        let opp = order.side.opposite();
        proof {
            lemma_wf_derived(self);
            assert(models(self.side_vec(opp)) == side_levels(self@, opp)) by {
                if opp == OrderSide::Buy {
                    assert(self.side_vec(opp) == self.bids@);
                } else {
                    assert(self.side_vec(opp) == self.asks@);
                }
            }
        }
        match order.side {
            OrderSide::Buy => {
                let _left = sweep(
                    &mut self.asks,
                    &mut self.order_index,
                    OrderSide::Buy,
                    None,
                    order.id,
                    order.quantity,
                    &mut trades,
                    &mut deltas,
                );
            },
            OrderSide::Sell => {
                let _left = sweep(
                    &mut self.bids,
                    &mut self.order_index,
                    OrderSide::Sell,
                    None,
                    order.id,
                    order.quantity,
                    &mut trades,
                    &mut deltas,
                );
            },
        }
        let ghost sm = match_levels(
            order.side,
            None,
            order.quantity as int,
            models(pre.side_vec(opp)),
        );
        if trades.len() > 0 {
            let lp = trades[trades.len() - 1].price;
            self.last_traded_price = Some(lp);
        }
        proof {
            assert(self.side_vec(order.side) == pre.side_vec(order.side));
            assert(models(self.side_vec(opp)) == sm.levels);
            lemma_wf_after_sweep(pre, *self, order.side, None, order.quantity as int);
            lemma_match_levels(order.side, None, order.quantity as int, models(pre.side_vec(opp)));
            let ar = add_order_result(pre@, order);
            assert(fills_of(trades@) =~= sm.fills) by {
                assert forall|i: int| 0 <= i < sm.fills.len() implies fills_of(trades@)[i]
                    == sm.fills[i] by {
                    assert(trade_matches_fill(trades@[i], sm.fills[i], order.id));
                }
            }
            assert(dms_of(deltas@) =~= sm.deltas) by {
                assert forall|i: int| 0 <= i < sm.deltas.len() implies dms_of(deltas@)[i]
                    == sm.deltas[i] by {
                    assert(delta_matches(deltas@[i], sm.deltas[i]));
                }
            }
            assert(self@ =~= ar.book) by {
                assert(side_levels(pre@, opp) == models(pre.side_vec(opp)));
                if trades@.len() > 0 {
                    assert(trade_matches_fill(
                        trades@[trades@.len() - 1],
                        sm.fills[sm.fills.len() - 1],
                        order.id,
                    ));
                    assert(self.last_traded_price == Some(sm.fills.last().price));
                }
                if opp == OrderSide::Buy {
                    assert(self@.bids == models(self.side_vec(OrderSide::Buy)));
                    assert(self@.asks == models(self.side_vec(OrderSide::Sell)));
                    assert(ar.book.bids == sm.levels);
                    assert(ar.book.asks == side_levels(pre@, OrderSide::Sell));
                    assert(models(self.side_vec(OrderSide::Sell)) == models(
                        pre.side_vec(OrderSide::Sell),
                    ));
                } else {
                    assert(self@.asks == models(self.side_vec(OrderSide::Sell)));
                    assert(self@.bids == models(self.side_vec(OrderSide::Buy)));
                    assert(ar.book.asks == sm.levels);
                    assert(ar.book.bids == side_levels(pre@, OrderSide::Buy));
                    assert(models(self.side_vec(OrderSide::Buy)) == models(
                        pre.side_vec(OrderSide::Buy),
                    ));
                }
            }
            assert forall|i: int| 0 <= i < trades@.len() implies (
            #[trigger] trades@[i]).taker_order_id == order.id && trades@[i].quantity > 0
                && trades@[i].price > 0 && levels_have_id(
                side_levels(pre@, opp),
                trades@[i].maker_order_id,
            ) by {
                assert(trade_matches_fill(trades@[i], sm.fills[i], order.id));
                assert(0 < sm.fills[i].quantity <= u64::MAX && sm.fills[i].price > 0
                    && levels_have_id(models(pre.side_vec(opp)), sm.fills[i].maker_id));
            }
        }
        (trades, deltas)
    }
}


impl MatchingEngine {
    /// Match a limit order against the crossable opposing levels; any
    /// residual quantity rests on its own side and is indexed.
    #[verifier::rlimit(100)]
    fn process_limit_order(&mut self, order: Order) -> (r: (Vec<Trade>, Vec<OrderBookDelta>))
        requires
            old(self).wf(),
            order.order_type == OrderType::Limit,
            order.quantity > 0,
            order.price > 0,
            !old(self).has_resting(order.id),
        ensures
            final(self).wf(),
            ({
                let ar = add_order_result(old(self)@, order);
                &&& final(self)@ == ar.book
                &&& fills_of(r.0@) == ar.fills
                &&& dms_of(r.1@) == ar.deltas
            }),
            forall|i: int|
                0 <= i < r.0@.len() ==> (#[trigger] r.0@[i]).taker_order_id == order.id
                    && r.0@[i].quantity > 0 && r.0@[i].price > 0 && levels_have_id(
                    side_levels(old(self)@, order.side.spec_opposite()),
                    r.0@[i].maker_order_id,
                ),
    {
        let ghost pre = *self;
        let mut trades: Vec<Trade> = Vec::new();
        let mut deltas: Vec<OrderBookDelta> = Vec::new();
        let opp = order.side.opposite();
        proof {
            lemma_wf_derived(self);
            assert(models(self.side_vec(opp)) == side_levels(self@, opp)) by {
                if opp == OrderSide::Buy {
                    assert(self.side_vec(opp) == self.bids@);
                } else {
                    assert(self.side_vec(opp) == self.asks@);
                }
            }
        }
        let left = match order.side {
            OrderSide::Buy => sweep(
                &mut self.asks,
                &mut self.order_index,
                OrderSide::Buy,
                Some(order.price),
                order.id,
                order.quantity,
                &mut trades,
                &mut deltas,
            ),
            OrderSide::Sell => sweep(
                &mut self.bids,
                &mut self.order_index,
                OrderSide::Sell,
                Some(order.price),
                order.id,
                order.quantity,
                &mut trades,
                &mut deltas,
            ),
        };
        let ghost sm = match_levels(
            order.side,
            Some(order.price),
            order.quantity as int,
            models(pre.side_vec(opp)),
        );
        if trades.len() > 0 {
            let lp = trades[trades.len() - 1].price;
            self.last_traded_price = Some(lp);
        }
        let ghost mid = *self;
        proof {
            assert(mid.side_vec(order.side) == pre.side_vec(order.side));
            assert(models(mid.side_vec(opp)) == sm.levels);
            lemma_wf_after_sweep(pre, mid, order.side, Some(order.price), order.quantity as int);
            lemma_match_levels(
                order.side,
                Some(order.price),
                order.quantity as int,
                models(pre.side_vec(opp)),
            );
            assert(fills_of(trades@) =~= sm.fills) by {
                assert forall|i: int| 0 <= i < sm.fills.len() implies fills_of(trades@)[i]
                    == sm.fills[i] by {
                    assert(trade_matches_fill(trades@[i], sm.fills[i], order.id));
                }
            }
            if trades@.len() > 0 {
                assert(trade_matches_fill(
                    trades@[trades@.len() - 1],
                    sm.fills[sm.fills.len() - 1],
                    order.id,
                ));
                assert(mid.last_traded_price == Some(sm.fills.last().price));
            }
            assert forall|i: int| 0 <= i < trades@.len() implies (
            #[trigger] trades@[i]).taker_order_id == order.id && trades@[i].quantity > 0
                && trades@[i].price > 0 && levels_have_id(
                side_levels(pre@, opp),
                trades@[i].maker_order_id,
            ) by {
                assert(trade_matches_fill(trades@[i], sm.fills[i], order.id));
                assert(0 < sm.fills[i].quantity <= u64::MAX && sm.fills[i].price > 0
                    && levels_have_id(models(pre.side_vec(opp)), sm.fills[i].maker_id));
            }
        }
        if left > 0 {
            let rest_ord = Order { quantity: left, ..order };
            proof {
                assert(!mid.has_resting(order.id));
                assert(!levels_have_id(models(mid.side_vec(order.side)), order.id)) by {
                    if order.side == OrderSide::Buy {
                        assert(mid.side_vec(order.side) == mid.bids@);
                    } else {
                        assert(mid.side_vec(order.side) == mid.asks@);
                    }
                }
                assert(side_wf(order.side, models(mid.side_vec(order.side)))
                    && MatchingEngine::side_cached(mid.side_vec(order.side))) by {
                    if order.side == OrderSide::Buy {
                        assert(mid.side_vec(order.side) == mid.bids@);
                    } else {
                        assert(mid.side_vec(order.side) == mid.asks@);
                    }
                }
            }
            let d = match order.side {
                OrderSide::Buy => rest_order(&mut self.bids, OrderSide::Buy, rest_ord),
                OrderSide::Sell => rest_order(&mut self.asks, OrderSide::Sell, rest_ord),
            };
            deltas.push(d);
            self.order_index.push(
                IndexEntry { id: order.id, side: order.side, price: order.price },
            );
            proof {
                let rr = insert_resting(order.side, models(mid.side_vec(order.side)), rest_ord);
                assert(models(self.side_vec(order.side)) == rr.levels
                    && MatchingEngine::side_cached(self.side_vec(order.side))) by {
                    if order.side == OrderSide::Buy {
                        assert(self.side_vec(order.side) == self.bids@);
                        assert(mid.side_vec(order.side) == mid.bids@);
                    } else {
                        assert(self.side_vec(order.side) == self.asks@);
                        assert(mid.side_vec(order.side) == mid.asks@);
                    }
                }
                assert(self.side_vec(opp) == mid.side_vec(opp));
                assert(models(self.side_vec(opp)) == sm.levels);
                if self.side_vec(opp).len() > 0 {
                    assert(sm.levels.len() > 0);
                    assert(sm.taker_left > 0);
                    assert(!crosses(order.side, Some(order.price), sm.levels[0].price));
                }
                lemma_wf_after_rest(mid, *self, order.side, rest_ord);
                // correspondence with the model result
                let ar = add_order_result(pre@, order);
                assert(side_levels(pre@, opp) == models(pre.side_vec(opp)));
                assert(side_levels(mid@, order.side) == models(mid.side_vec(order.side))) by {
                    if order.side == OrderSide::Buy {
                        assert(mid.side_vec(order.side) == mid.bids@);
                    } else {
                        assert(mid.side_vec(order.side) == mid.asks@);
                    }
                }
                assert(self@ =~= ar.book) by {
                    if order.side == OrderSide::Buy {
                        assert(self@.bids == models(self.side_vec(OrderSide::Buy)));
                        assert(self@.asks == models(self.side_vec(OrderSide::Sell)));
                    } else {
                        assert(self@.asks == models(self.side_vec(OrderSide::Sell)));
                        assert(self@.bids == models(self.side_vec(OrderSide::Buy)));
                    }
                }
                assert(dms_of(deltas@) =~= ar.deltas) by {
                    assert(delta_matches(deltas@[deltas@.len() - 1], rr.delta));
                    assert forall|i: int| 0 <= i < ar.deltas.len() implies dms_of(deltas@)[i]
                        == ar.deltas[i] by {
                        if i < sm.deltas.len() {
                            assert(delta_matches(deltas@[i], sm.deltas[i]));
                            assert(ar.deltas[i] == sm.deltas[i]);
                        } else {
                            assert(ar.deltas[i] == rr.delta);
                        }
                    }
                }
            }
        } else {
            proof {
                let ar = add_order_result(pre@, order);
                assert(side_levels(pre@, opp) == models(pre.side_vec(opp)));
                assert(self@ =~= ar.book) by {
                    if opp == OrderSide::Buy {
                        assert(self@.bids == models(self.side_vec(OrderSide::Buy)));
                        assert(self@.asks == models(self.side_vec(OrderSide::Sell)));
                        assert(models(self.side_vec(OrderSide::Sell)) == models(
                            pre.side_vec(OrderSide::Sell),
                        ));
                    } else {
                        assert(self@.asks == models(self.side_vec(OrderSide::Sell)));
                        assert(self@.bids == models(self.side_vec(OrderSide::Buy)));
                        assert(models(self.side_vec(OrderSide::Buy)) == models(
                            pre.side_vec(OrderSide::Buy),
                        ));
                    }
                }
                assert(dms_of(deltas@) =~= ar.deltas) by {
                    assert forall|i: int| 0 <= i < sm.deltas.len() implies dms_of(deltas@)[i]
                        == sm.deltas[i] by {
                        assert(delta_matches(deltas@[i], sm.deltas[i]));
                    }
                }
            }
        }
        (trades, deltas)
    }

    /// Admit an order: dispatch by type, after treating a zero quantity
    /// as a silent no-op.
    ///
    /// Every trade pairs the taker with a maker that was resting on the
    /// opposing side, at the maker's price, with a positive quantity.
    pub fn add_order(&mut self, order: Order) -> (r: (Vec<Trade>, Vec<OrderBookDelta>))
        requires
            old(self).wf(),
            order.order_type == OrderType::Limit && order.quantity > 0 ==> order.price > 0
                && !old(self).has_resting(order.id),
        ensures
            final(self).wf(),
            ({
                let ar = add_order_result(old(self)@, order);
                &&& final(self)@ == ar.book
                &&& fills_of(r.0@) == ar.fills
                &&& dms_of(r.1@) == ar.deltas
            }),
            forall|i: int|
                0 <= i < r.0@.len() ==> (#[trigger] r.0@[i]).taker_order_id == order.id
                    && r.0@[i].quantity > 0 && r.0@[i].price > 0 && levels_have_id(
                    side_levels(old(self)@, order.side.spec_opposite()),
                    r.0@[i].maker_order_id,
                ),
    {
        if order.quantity == 0 {
            let trades: Vec<Trade> = Vec::new();
            let deltas: Vec<OrderBookDelta> = Vec::new();
            proof {
                assert(fills_of(trades@) =~= Seq::<crate::model::Fill>::empty());
                assert(dms_of(deltas@) =~= Seq::<crate::model::DeltaModel>::empty());
            }
            return (trades, deltas);
        }
        match order.order_type {
            OrderType::Limit => self.process_limit_order(order),
            OrderType::Market => self.process_market_order(order),
        }
    }
}


/// After a cancellation on `side`, with the order's entry dropped from
/// the index, the whole engine is well-formed again.
proof fn lemma_wf_after_cancel(pre: MatchingEngine, post: MatchingEngine, side: OrderSide, id: u128)
    requires
        pre.wf(),
        levels_have_id(models(pre.side_vec(side)), id),
        ({
            let cm = cancel_from_side(side, models(pre.side_vec(side)), id);
            &&& models(post.side_vec(side)) == cm.levels
            &&& MatchingEngine::side_cached(post.side_vec(side))
            &&& post.side_vec(side.spec_opposite()) == pre.side_vec(side.spec_opposite())
            &&& index_ids_unique(post.order_index@)
            &&& (forall|e: IndexEntry|
                post.order_index@.contains(e) <==> (pre.order_index@.contains(e) && e.id != id))
        }),
    ensures
        post.wf(),
{
    let opp = side.spec_opposite();
    let mm = models(pre.side_vec(side));
    let cm = cancel_from_side(side, mm, id);
    lemma_wf_derived(&pre);
    assert(mm == side_levels(pre@, side) && side_wf(side, mm) && side_ids_distinct(mm)) by {
        if side == OrderSide::Buy {
            assert(pre.side_vec(side) == pre.bids@);
        } else {
            assert(pre.side_vec(side) == pre.asks@);
        }
    }
    lemma_cancel_from_side(side, mm, id);
    assert(models(post.side_vec(opp)) == models(pre.side_vec(opp)));
    assert(side_wf(OrderSide::Buy, post@.bids) && side_wf(OrderSide::Sell, post@.asks)) by {
        if side == OrderSide::Buy {
            assert(post@.bids == cm.levels);
            assert(post@.asks == pre@.asks);
        } else {
            assert(post@.asks == cm.levels);
            assert(post@.bids == pre@.bids);
        }
    }
    assert(MatchingEngine::side_cached(post.bids@) && MatchingEngine::side_cached(post.asks@)) by {
        if side == OrderSide::Buy {
            assert(post.side_vec(OrderSide::Buy) == post.bids@);
            assert(post.asks@ == pre.asks@);
        } else {
            assert(post.side_vec(OrderSide::Sell) == post.asks@);
            assert(post.bids@ == pre.bids@);
        }
    }
    assert(post.entries_resolve()) by {
        assert forall|k: int| 0 <= k < post.order_index@.len() implies has_order_at(
            side_levels(post@, (#[trigger] post.order_index@[k]).side),
            post.order_index@[k].price,
            post.order_index@[k].id,
        ) by {
            let e = post.order_index@[k];
            assert(post.order_index@.contains(e));
            assert(pre.order_index@.contains(e) && e.id != id);
            let k0 = choose|k0: int| 0 <= k0 < pre.order_index@.len() && pre.order_index@[k0] == e;
            assert(has_order_at(side_levels(pre@, e.side), e.price, e.id));
            if e.side == side {
                assert(side_levels(post@, side) == cm.levels);
                assert(has_order_at(cm.levels, e.price, e.id));
            } else {
                assert(side_levels(post@, e.side) == side_levels(pre@, e.side));
            }
        }
    }
    assert(post.orders_indexed()) by {
        assert forall|s: OrderSide, i: int, j: int|
            #![trigger side_levels(post@, s)[i].orders[j]]
            0 <= i < side_levels(post@, s).len() && 0 <= j < side_levels(
                post@,
                s,
            )[i].orders.len() implies post.order_index@.contains(
            IndexEntry {
                id: side_levels(post@, s)[i].orders[j].id,
                side: s,
                price: side_levels(post@, s)[i].price,
            },
        ) by {
            let ls = side_levels(post@, s);
            let x = ls[i].orders[j].id;
            let p = ls[i].price;
            if s == side {
                assert(ls == cm.levels);
                assert(has_order_at(cm.levels, p, x)) by {
                    assert(orders_have_id(cm.levels[i].orders, x));
                }
                assert(levels_have_id(cm.levels, x)) by {
                    assert(orders_have_id(cm.levels[i].orders, x));
                }
                assert(x != id);
                assert(has_order_at(mm, p, x));
                let i0 = choose|i0: int|
                    0 <= i0 < mm.len() && (#[trigger] mm[i0]).price == p && orders_have_id(
                        mm[i0].orders,
                        x,
                    );
                let j0 = choose|j0: int|
                    0 <= j0 < mm[i0].orders.len() && (#[trigger] mm[i0].orders[j0]).id == x;
                assert(side_levels(pre@, s) == mm);
                assert(side_levels(pre@, s)[i0].orders[j0] == mm[i0].orders[j0]);
                assert(pre.order_index@.contains(IndexEntry { id: x, side: s, price: p }));
                assert(post.order_index@.contains(IndexEntry { id: x, side: s, price: p }));
            } else {
                assert(ls == side_levels(pre@, s));
                assert(side_levels(pre@, s)[i].orders[j] == ls[i].orders[j]);
                assert(pre.order_index@.contains(IndexEntry { id: x, side: s, price: p }));
                // the cancelled id rests on `side`, so an id on the other
                // side differs from it
                assert(x != id) by {
                    assert(levels_have_id(side_levels(pre@, s), x)) by {
                        assert(orders_have_id(side_levels(pre@, s)[i].orders, x));
                    }
                    if x == id {
                        if side == OrderSide::Buy {
                            assert(levels_have_id(pre@.bids, id));
                            assert(levels_have_id(pre@.asks, id));
                            assert(false);
                        } else {
                            assert(levels_have_id(pre@.asks, id));
                            assert(levels_have_id(pre@.bids, id));
                            assert(false);
                        }
                    }
                }
                assert(post.order_index@.contains(IndexEntry { id: x, side: s, price: p }));
            }
        }
    }
    assert(post.uncrossed()) by {
        if post.bids@.len() > 0 && post.asks@.len() > 0 {
            if side == OrderSide::Buy {
                assert(post@.bids == cm.levels);
                assert(post.asks@ == pre.asks@);
                assert(cm.levels.len() > 0);
                assert(mm.len() > 0);
                assert(pre.bids@.len() > 0) by {
                    assert(mm == pre@.bids);
                }
                assert(post.bids@[0]@.price == cm.levels[0].price) by {
                    assert(models(post.bids@)[0] == post.bids@[0]@);
                }
                assert(pre.bids@[0]@.price == mm[0].price) by {
                    assert(models(pre.bids@)[0] == pre.bids@[0]@);
                }
            } else {
                assert(post@.asks == cm.levels);
                assert(post.bids@ == pre.bids@);
                assert(cm.levels.len() > 0);
                assert(mm.len() > 0);
                assert(pre.asks@.len() > 0) by {
                    assert(mm == pre@.asks);
                }
                assert(post.asks@[0]@.price == cm.levels[0].price) by {
                    assert(models(post.asks@)[0] == post.asks@[0]@);
                }
                assert(pre.asks@[0]@.price == mm[0].price) by {
                    assert(models(pre.asks@)[0] == pre.asks@[0]@);
                }
            }
        }
    }
}

/// Splice the order carrying `id` out of the level at `price` on one
/// side; the delta reports the level's aggregate after the removal.
fn cancel_in(levels: &mut Vec<PriceLevel>, side: OrderSide, price: u64, id: u128) -> (r: (
    Order,
    OrderBookDelta,
))
    requires
        side_wf(side, models(old(levels)@)),
        side_ids_distinct(models(old(levels)@)),
        MatchingEngine::side_cached(old(levels)@),
        has_order_at(models(old(levels)@), price, id),
    ensures
        ({
            let cm = cancel_from_side(side, models(old(levels)@), id);
            &&& r.0 == cm.removed
            &&& models(final(levels)@) == cm.levels
            &&& MatchingEngine::side_cached(final(levels)@)
            &&& delta_matches(r.1, cm.delta)
        }),
{
    let ghost levels0 = levels@;
    let ghost m0 = models(levels@);
    proof {
        let istar = choose|i: int|
            0 <= i < m0.len() && (#[trigger] m0[i]).price == price && orders_have_id(
                m0[i].orders,
                id,
            );
        assert(levels_have_id(m0, id)) by {
            assert(orders_have_id(m0[istar].orders, id));
        }
        lemma_level_pos_of_id(m0, id);
        lemma_cancel_from_side(side, m0, id);
    }
    let n = levels.len();
    let mut li: usize = 0;
    while li < n
        invariant
            0 <= li <= n,
            n == levels@.len(),
            levels@ == levels0,
            forall|k: int| 0 <= k < li ==> (#[trigger] levels@[k]).price != price,
        ensures
            0 <= li <= n,
            levels@ == levels0,
            forall|k: int| 0 <= k < li ==> (#[trigger] levels@[k]).price != price,
            li < n ==> levels@[li as int].price == price,
        decreases n - li,
    {
        if levels[li].price == price {
            break;
        }
        li += 1;
    }
    proof {
        let istar = choose|i: int|
            0 <= i < m0.len() && (#[trigger] m0[i]).price == price && orders_have_id(
                m0[i].orders,
                id,
            );
        assert(m0[istar] == levels0[istar]@);
        if li >= n {
            assert(levels0[istar].price != price);
            assert(false);
        }
        // the level at this price is unique, and it is the one holding id
        assert(m0[li as int] == levels0[li as int]@);
        if istar != li {
            assert(better_price(side, m0[istar].price, m0[li as int].price) || better_price(
                side,
                m0[li as int].price,
                m0[istar].price,
            ));
            assert(false);
        }
        // the spec scan lands on the same level
        let li_s = level_pos_of_id(m0, id);
        if li_s != li {
            let j1 = choose|j: int|
                0 <= j < m0[li_s].orders.len() && (#[trigger] m0[li_s].orders[j]).id == id;
            let j2 = choose|j: int|
                0 <= j < m0[li as int].orders.len() && (#[trigger] m0[li as int].orders[j]).id
                    == id;
            if li_s < li {
                assert(m0[li_s].orders[j1].id != m0[li as int].orders[j2].id);
            } else {
                assert(m0[li as int].orders[j2].id != m0[li_s].orders[j1].id);
            }
            assert(false);
        }
    }
    let mut lvl = levels.remove(li);
    let ghost orders0 = lvl.orders@;
    proof {
        assert(orders_have_id(orders0, id));
        lemma_order_pos_of_id(orders0, id);
    }
    let on = lvl.orders.len();
    let mut oi: usize = 0;
    while oi < on
        invariant
            0 <= oi <= on,
            on == lvl.orders@.len(),
            lvl.orders@ == orders0,
            forall|k: int| 0 <= k < oi ==> (#[trigger] lvl.orders@[k]).id != id,
        ensures
            0 <= oi <= on,
            lvl.orders@ == orders0,
            forall|k: int| 0 <= k < oi ==> (#[trigger] lvl.orders@[k]).id != id,
            oi < on ==> lvl.orders@[oi as int].id == id,
        decreases on - oi,
    {
        if lvl.orders[oi].id == id {
            break;
        }
        oi += 1;
    }
    proof {
        let oi_s = order_pos_of_id(orders0, id);
        if oi >= on {
            assert(orders0[oi_s].id != id);
            assert(false);
        }
        if oi_s < oi {
            assert(orders0[oi_s].id != id);
            assert(false);
        }
        if oi < oi_s {
            assert(orders0[oi as int].id != id);
            assert(false);
        }
        lemma_sum_remove(orders0, oi as int);
    }
    let removed = lvl.orders.remove(oi);
    proof {
        lemma_sum_nonneg(lvl.orders@);
    }
    lvl.total_quantity = lvl.total_quantity - (removed.quantity as u128);
    let ghost cm = cancel_from_side(side, m0, id);
    if lvl.orders.len() == 0 {
        proof {
            assert(orders0.len() == 1);
            m0.remove_ensures(li as int);
            levels0.remove_ensures(li as int);
            assert forall|k: int| 0 <= k < models(levels@).len() implies models(levels@)[k]
                == cm.levels[k] by {
                if k < li {
                    assert(levels@[k] == levels0[k]);
                    assert(cm.levels[k] == m0[k]);
                } else {
                    assert(levels@[k] == levels0[k + 1]);
                    assert(cm.levels[k] == m0[k + 1]);
                }
            }
            assert(models(levels@) =~= cm.levels);
            assert forall|k: int| 0 <= k < levels@.len() implies (
            #[trigger] levels@[k]).total_quantity == sum_quants(levels@[k].orders@) by {
                if k < li {
                    assert(levels@[k] == levels0[k]);
                } else {
                    assert(levels@[k] == levels0[k + 1]);
                }
            }
        }
        (removed, OrderBookDelta { action: DeltaAction::Delete, side, price, new_quantity: 0 })
    } else {
        let total = lvl.total_quantity;
        levels.insert(li, lvl);
        proof {
            assert(orders0.len() > 1);
            let nl = LevelModel { price: m0[li as int].price, orders: orders0.remove(oi as int) };
            assert(levels@[li as int]@ == nl);
            assert forall|k: int| 0 <= k < models(levels@).len() implies models(levels@)[k]
                == cm.levels[k] by {
                if k < li {
                    assert(levels@[k] == levels0[k]);
                    assert(cm.levels[k] == m0[k]);
                } else if k > li {
                    assert(levels@[k] == levels0[k]);
                    assert(cm.levels[k] == m0[k]);
                } else {
                    assert(cm.levels[k] == nl);
                }
            }
            assert(models(levels@) =~= cm.levels);
            assert forall|k: int| 0 <= k < levels@.len() implies (
            #[trigger] levels@[k]).total_quantity == sum_quants(levels@[k].orders@) by {
                if k != li {
                    assert(levels@[k] == levels0[k]);
                }
            }
            assert(delta_matches(
                OrderBookDelta {
                    action: DeltaAction::Update,
                    side,
                    price,
                    new_quantity: total,
                },
                cm.delta,
            ));
        }
        (removed, OrderBookDelta { action: DeltaAction::Update, side, price, new_quantity: total })
    }
}

impl MatchingEngine {
    /// Cancel the resting order with `order_id`.
    ///
    /// Succeeds, returning the removed order with its remaining quantity
    /// and one delta for its level, exactly when the id is resting;
    /// otherwise reports `NotFound` and changes nothing. The engine
    /// proves its index never disagrees with the book, so the defensive
    /// `Inconsistent` error is never returned.
    pub fn cancel_order(&mut self, order_id: u128) -> (r: (
        Result<Order, CancelError>,
        Vec<OrderBookDelta>,
    ))
        requires
            old(self).wf(),
        ensures
            final(self).wf(),
            final(self)@.symbol == old(self)@.symbol,
            final(self)@.last_traded_price == old(self)@.last_traded_price,
            ({
                if levels_have_id(old(self)@.bids, order_id) {
                    let cm = cancel_from_side(OrderSide::Buy, old(self)@.bids, order_id);
                    &&& r.0 == Ok::<Order, CancelError>(cm.removed)
                    &&& final(self)@.bids == cm.levels
                    &&& final(self)@.asks == old(self)@.asks
                    &&& r.1@.len() == 1
                    &&& delta_matches(r.1@[0], cm.delta)
                } else if levels_have_id(old(self)@.asks, order_id) {
                    let cm = cancel_from_side(OrderSide::Sell, old(self)@.asks, order_id);
                    &&& r.0 == Ok::<Order, CancelError>(cm.removed)
                    &&& final(self)@.asks == cm.levels
                    &&& final(self)@.bids == old(self)@.bids
                    &&& r.1@.len() == 1
                    &&& delta_matches(r.1@[0], cm.delta)
                } else {
                    &&& r.0 == Err::<Order, CancelError>(CancelError::NotFound)
                    &&& final(self)@ == old(self)@
                    &&& r.1@.len() == 0
                }
            }),
    {
        let mut deltas: Vec<OrderBookDelta> = Vec::new();
        let ghost pre = *self;
        proof {
            lemma_wf_derived(self);
        }
        match find_entry_pos(&self.order_index, order_id) {
            None => {
                proof {
                    if levels_have_id(self@.bids, order_id) {
                        assert(index_has_id(self.order_index@, order_id));
                        assert(false);
                    }
                    if levels_have_id(self@.asks, order_id) {
                        assert(index_has_id(self.order_index@, order_id));
                        assert(false);
                    }
                }
                (Err(CancelError::NotFound), deltas)
            },
            Some(k) => {
                let entry = self.order_index[k];
                proof {
                    assert(self.order_index@[k as int] == entry);
                    assert(has_order_at(
                        side_levels(self@, entry.side),
                        entry.price,
                        entry.id,
                    ));
                    lemma_remove_entry_membership(self.order_index@, k as int, order_id);
                }
                self.order_index.remove(k);
                let rd = match entry.side {
                    OrderSide::Buy => {
                        proof {
                            assert(side_levels(pre@, OrderSide::Buy) == models(self.bids@));
                        }
                        cancel_in(&mut self.bids, OrderSide::Buy, entry.price, order_id)
                    },
                    OrderSide::Sell => {
                        proof {
                            assert(side_levels(pre@, OrderSide::Sell) == models(self.asks@));
                        }
                        cancel_in(&mut self.asks, OrderSide::Sell, entry.price, order_id)
                    },
                };
                deltas.push(rd.1);
                proof {
                    assert(levels_have_id(models(pre.side_vec(entry.side)), order_id)) by {
                        let i = choose|i: int|
                            0 <= i < side_levels(pre@, entry.side).len() && (#[trigger] side_levels(
                                pre@,
                                entry.side,
                            )[i]).price == entry.price && orders_have_id(
                                side_levels(pre@, entry.side)[i].orders,
                                order_id,
                            );
                        assert(models(pre.side_vec(entry.side)) == side_levels(pre@, entry.side));
                        assert(orders_have_id(models(pre.side_vec(entry.side))[i].orders, order_id));
                    }
                    assert(models(self.side_vec(entry.side)) == cancel_from_side(
                        entry.side,
                        models(pre.side_vec(entry.side)),
                        order_id,
                    ).levels && MatchingEngine::side_cached(self.side_vec(entry.side))) by {
                        if entry.side == OrderSide::Buy {
                            assert(self.side_vec(entry.side) == self.bids@);
                            assert(pre.side_vec(entry.side) == pre.bids@);
                        } else {
                            assert(self.side_vec(entry.side) == self.asks@);
                            assert(pre.side_vec(entry.side) == pre.asks@);
                        }
                    }
                    lemma_wf_after_cancel(pre, *self, entry.side, order_id);
                    if entry.side == OrderSide::Buy {
                        assert(levels_have_id(pre@.bids, order_id));
                        assert(self@.bids == models(self.side_vec(OrderSide::Buy)));
                        assert(self@.asks == models(self.side_vec(OrderSide::Sell)));
                        assert(models(self.side_vec(OrderSide::Sell)) == models(
                            pre.side_vec(OrderSide::Sell),
                        ));
                    } else {
                        assert(levels_have_id(pre@.asks, order_id));
                        assert(!levels_have_id(pre@.bids, order_id));
                        assert(self@.asks == models(self.side_vec(OrderSide::Sell)));
                        assert(self@.bids == models(self.side_vec(OrderSide::Buy)));
                        assert(models(self.side_vec(OrderSide::Buy)) == models(
                            pre.side_vec(OrderSide::Buy),
                        ));
                    }
                }
                (Ok(rd.0), deltas)
            },
        }
    }

    /// Whether an order with `id` is resting in the book.
    pub fn contains_order(&self, id: u128) -> (r: bool)
        requires
            self.wf(),
        ensures
            r == self.has_resting(id),
    {
        proof {
            lemma_wf_derived(self);
        }
        match find_entry_pos(&self.order_index, id) {
            Some(k) => {
                proof {
                    assert(index_has_id(self.order_index@, id)) by {
                        assert(self.order_index@[k as int].id == id);
                    }
                }
                true
            },
            None => {
                proof {
                    if levels_have_id(self@.bids, id) {
                        assert(index_has_id(self.order_index@, id));
                        assert(false);
                    }
                    if levels_have_id(self@.asks, id) {
                        assert(index_has_id(self.order_index@, id));
                        assert(false);
                    }
                }
                false
            },
        }
    }
}


/// Aggregate one side of the book, best-first, one entry per level.
fn side_snapshot(levels: &Vec<PriceLevel>) -> (v: Vec<OrderBookLevel>)
    requires
        MatchingEngine::side_cached(levels@),
    ensures
        v@.len() == levels@.len(),
        forall|i: int|
            0 <= i < v@.len() ==> (#[trigger] v@[i]).price == levels@[i].price && v@[i].quantity
                == sum_quants(levels@[i].orders@),
{
    let mut v: Vec<OrderBookLevel> = Vec::new();
    let n = levels.len();
    let mut i: usize = 0;
    while i < n
        invariant
            0 <= i <= n,
            n == levels@.len(),
            v@.len() == i,
            MatchingEngine::side_cached(levels@),
            forall|k: int|
                0 <= k < i ==> (#[trigger] v@[k]).price == levels@[k].price && v@[k].quantity
                    == sum_quants(levels@[k].orders@),
        decreases n - i,
    {
        let p = levels[i].price;
        let q = levels[i].total_quantity;
        v.push(OrderBookLevel { price: p, quantity: q });
        i += 1;
    }
    v
}

impl MatchingEngine {
    /// A consistent snapshot: both sides aggregated best-first, the
    /// symbol, the last traded price, and the current time. Pure: the
    /// book is not changed.
    pub fn get_order_book_snapshot(&self) -> (s: OrderBookSnapshot)
        requires
            self.wf(),
        ensures
            s.symbol@ == self@.symbol,
            s.last_traded_price == self@.last_traded_price,
            s.bids@.len() == self@.bids.len(),
            s.asks@.len() == self@.asks.len(),
            forall|i: int|
                0 <= i < s.bids@.len() ==> (#[trigger] s.bids@[i]).price == self@.bids[i].price
                    && s.bids@[i].quantity == sum_quants(self@.bids[i].orders),
            forall|i: int|
                0 <= i < s.asks@.len() ==> (#[trigger] s.asks@[i]).price == self@.asks[i].price
                    && s.asks@[i].quantity == sum_quants(self@.asks[i].orders),
    {
        let bids = side_snapshot(&self.bids);
        let asks = side_snapshot(&self.asks);
        proof {
            assert forall|i: int| 0 <= i < bids@.len() implies (#[trigger] bids@[i]).price
                == self@.bids[i].price && bids@[i].quantity == sum_quants(
                self@.bids[i].orders,
            ) by {
                assert(self@.bids[i] == self.bids@[i]@);
            }
            assert forall|i: int| 0 <= i < asks@.len() implies (#[trigger] asks@[i]).price
                == self@.asks[i].price && asks@[i].quantity == sum_quants(
                self@.asks[i].orders,
            ) by {
                assert(self@.asks[i] == self.asks@[i]@);
            }
        }
        OrderBookSnapshot {
            symbol: String::from_str(self.symbol.as_str()),
            bids,
            asks,
            last_traded_price: self.last_traded_price,
            timestamp: now_millis(),
        }
    }
}

} // verus!
