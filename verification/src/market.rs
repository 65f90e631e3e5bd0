//! One market: its order book, prices, chart and recent trades.
use vstd::prelude::*;
use crate::candles::{Candle, CandleChart, Timeframe, chrono_timestamp_ok, push_bounded, timestamp_representable};
use crate::clock::now_secs;
use crate::decimal::{Dec, add_ok, ddiff, dsum, sub_ok, dec_limit, pow10, lemma_pow10_pos, dec_checked_add, dec_checked_sub};
use crate::matcher::{FillEvent, fills_wf, match_ok, match_stops, match_order, match_result, same_fills, try_match_order};
use crate::oracle::{Oracle, next_index, next_index_ok};
use crate::orderbook::{
    Level, Order, OrderBook, OrderIds, OrderId, OrderSide, OrderType, cancel_in_side, insert_order,
    opposite, side_has_id,
};

verus! {

/// A trade shown in the market's tape; `timestamp` in seconds since the Unix
/// epoch.
#[derive(Clone, Copy, Debug)]
pub struct RecentTrade {
    pub price: Dec,
    pub size: Dec,
    pub side: OrderSide,
    pub timestamp: i64,
}

/// A candle of generated price history; `timestamp_secs` in seconds since
/// the Unix epoch.
#[derive(Clone, Copy, Debug)]
pub struct SimulatedCandle {
    pub open: Dec,
    pub high: Dec,
    pub low: Dec,
    pub close: Dec,
    pub volume: Dec,
    pub timestamp_secs: i64,
}

impl SimulatedCandle {
    /// Its amounts are valid decimals.
    pub open spec fn wf(self) -> bool {
        &&& self.open.wf()
        &&& self.high.wf()
        &&& self.low.wf()
        &&& self.close.wf()
        &&& self.volume.wf()
    }

    /// Its time: `timestamp_secs` when chrono can build a date-time from it,
    /// else the current time.
    pub fn timestamp(&self) -> (r: i64)
        ensures
            chrono_timestamp_ok(self.timestamp_secs) ==> r == self.timestamp_secs,
    {
        if timestamp_representable(self.timestamp_secs) {
            self.timestamp_secs
        } else {
            now_secs()
        }
    }
}

/// One market.
pub struct Market {
    pub symbol: String,
    pub orderbook: OrderBook,
    pub oracle: Oracle,
    pub chart: CandleChart,
    pub recent_trades: Vec<RecentTrade>,
}

/// The chart candle for the history candle `sc`, stamped `t`.
pub open spec fn history_candle(sc: SimulatedCandle, t: i64) -> Candle {
    Candle { open: sc.open, high: sc.high, low: sc.low, close: sc.close, volume: sc.volume, timestamp: t }
}

/// `t` is a time `SimulatedCandle::timestamp` may give for `sc`: its own
/// `timestamp_secs` whenever chrono can build a date-time from it.
pub open spec fn stamp_of(sc: SimulatedCandle, t: i64) -> bool {
    chrono_timestamp_ok(sc.timestamp_secs) ==> t == sc.timestamp_secs
}

/// The finished candles `s` after pushing `cs` in turn into a chart keeping
/// at most `max` of them.
pub open spec fn push_all(s: Seq<Candle>, cs: Seq<Candle>, max: nat) -> Seq<Candle>
    decreases cs.len(),
{
    if cs.len() == 0 {
        s
    } else {
        push_bounded(push_all(s, cs.drop_last(), max), cs.last(), max)
    }
}

/// The history candles `candles`, stamped with the times `ts`, as chart
/// candles.
pub open spec fn history_candles(candles: Seq<SimulatedCandle>, ts: Seq<i64>) -> Seq<Candle> {
    Seq::new(candles.len(), |k: int| history_candle(candles[k], ts[k]))
}

/// The chart `after` is the chart `before` with the history candles
/// `candles` (stamped with the times `ts`) appended in turn as finished
/// candles; the candle in progress, the capacity and the timeframe stay.
pub open spec fn history_loaded(
    before: CandleChart,
    after: CandleChart,
    candles: Seq<SimulatedCandle>,
    ts: Seq<i64>,
) -> bool {
    &&& ts.len() == candles.len()
    &&& forall|k: int| 0 <= k < candles.len() ==> stamp_of(#[trigger] candles[k], ts[k])
    &&& after.finished() == push_all(before.finished(), history_candles(candles, ts), before.capacity())
    &&& after.in_progress() == before.in_progress()
    &&& after.capacity() == before.capacity()
    &&& after.frame() == before.frame()
}

/// A seed order: placed by `"seed"`, a limit order of size 1 and leverage 1.
pub open spec fn is_seed_order(o: Order, id: OrderId, side: OrderSide, price: Dec) -> bool {
    &&& o.id == id
    &&& o.user@ == "seed"@
    &&& o.side == side
    &&& o.order_type == OrderType::Limit
    &&& o.price == price
    &&& o.size == (Dec { mantissa: 1, scale: 0 })
    &&& o.remaining == (Dec { mantissa: 1, scale: 0 })
    &&& o.leverage == 1
}

/// The side after inserting the orders `os` in turn.
pub open spec fn insert_all(levels: Seq<Level>, os: Seq<Order>) -> Seq<Level>
    decreases os.len(),
{
    if os.len() == 0 {
        levels
    } else {
        insert_order(insert_all(levels, os.drop_last()), os.last())
    }
}

/// The offset of the `k`-th seed level from the base price (`k` from 1):
/// `10 * k`.
pub open spec fn seed_offset(k: int) -> Dec {
    Dec { mantissa: (10 * k) as i128, scale: 0 }
}

/// `bids` and `asks` are the seed orders around `base`: the `k`-th (from 0)
/// bid and ask are one-unit limit orders by `"seed"` at `base - 10(k+1)` and
/// `base + 10(k+1)`, identifiers `first_id + 2k` and `first_id + 2k + 1`.
pub open spec fn seed_orders(bids: Seq<Order>, asks: Seq<Order>, base: Dec, first_id: u64) -> bool {
    &&& bids.len() == 10
    &&& asks.len() == 10
    &&& forall|k: int|
        0 <= k < 10 ==> is_seed_order(
            #[trigger] bids[k],
            (first_id + 2 * k) as u64,
            OrderSide::Buy,
            ddiff(base, seed_offset(k + 1)),
        ) && is_seed_order(
            asks[k],
            (first_id + 2 * k + 1) as u64,
            OrderSide::Sell,
            dsum(base, seed_offset(k + 1)),
        )
}

/// Book `after` is the book with sides `bids_before` and `asks_before` with
/// the seed orders around `base` (identifiers from `first_id`) inserted in
/// turn, bid 1, ask 1, bid 2, ...
pub open spec fn seeded(
    bids_before: Seq<Level>,
    asks_before: Seq<Level>,
    after: OrderBook,
    base: Dec,
    first_id: u64,
) -> bool {
    exists|bids: Seq<Order>, asks: Seq<Order>|
        #[trigger] seed_orders(bids, asks, base, first_id) && after.bid_levels() == insert_all(
            bids_before,
            bids,
        ) && after.ask_levels() == insert_all(asks_before, asks)
}

/// The seed prices around `base` are within `Decimal`'s range: `base` is at
/// least 100 away from its largest magnitude.
pub open spec fn seed_in_range(base: Dec) -> bool {
    &&& -dec_limit() <= base.val() - 100 * pow10(28)
    &&& base.val() + 100 * pow10(28) <= dec_limit()
}

/// The `k`-th seed offset is between 0 and 100 units.
proof fn lemma_offset_bound(k: int, p: int)
    requires
        1 <= k <= 10,
        p > 0,
    ensures
        0 <= 10 * k * p <= 100 * p,
{
    assert(0 <= 10 * k * p <= 100 * p) by (nonlinear_arith)
        requires
            1 <= k <= 10,
            p > 0,
    ;
}

/// `after` is market `before` once `order` has been matched against its book
/// with fills `fills` (`match_order`), whose amounts are valid; nothing else
/// changes.
pub open spec fn order_matched(before: Market, after: Market, order: Order, fills: Seq<FillEvent>) -> bool {
    let m = match_result(before.orderbook.side(opposite(order.side)), order);
    &&& after.orderbook.side(opposite(order.side)) == m.0
    &&& match_stops(m.0, m.2)
    &&& same_fills(fills, m.1)
    &&& fills_wf(fills)
    &&& after.orderbook.side(order.side) == (if m.2.remaining.val() > 0 && order.order_type
        == OrderType::Limit {
        insert_order(before.orderbook.side(order.side), m.2)
    } else {
        before.orderbook.side(order.side)
    })
    &&& after.symbol == before.symbol
    &&& after.oracle == before.oracle
    &&& after.chart == before.chart
    &&& after.recent_trades == before.recent_trades
}

/// `after` is market `before` once the order with identifier `id` has been
/// cancelled (`OrderBook::cancel_order`), `found` telling whether there was
/// one; nothing else changes.
pub open spec fn order_cancelled(before: Market, after: Market, id: OrderId, found: bool) -> bool {
    let bids = before.orderbook.bid_levels();
    let asks = before.orderbook.ask_levels();
    &&& found == (side_has_id(bids, id) || side_has_id(asks, id))
    &&& side_has_id(bids, id) ==> after.orderbook.bid_levels() == cancel_in_side(bids, id)
        && after.orderbook.ask_levels() == asks
    &&& !side_has_id(bids, id) ==> after.orderbook.bid_levels() == bids
        && after.orderbook.ask_levels() == cancel_in_side(asks, id)
    &&& after.symbol == before.symbol
    &&& after.oracle == before.oracle
    &&& after.chart == before.chart
    &&& after.recent_trades == before.recent_trades
}

/// `after` is market `before` with a trade of `size` at `price` on `side`
/// added to the tape, of which the latest 100 are kept; nothing else
/// changes.
pub open spec fn trade_recorded(before: Market, after: Market, price: Dec, size: Dec, side: OrderSide) -> bool {
    let t = before.recent_trades@;
    let u = after.recent_trades@;
    &&& u.len() == (if t.len() + 1 > 100 {
        t.len() as int
    } else {
        t.len() + 1int
    })
    &&& u.last().price == price
    &&& u.last().size == size
    &&& u.last().side == side
    &&& t.len() + 1 > 100 ==> u.drop_last() == t.drop_first()
    &&& t.len() + 1 <= 100 ==> u.drop_last() == t
    &&& after.symbol == before.symbol
    &&& after.orderbook == before.orderbook
    &&& after.oracle == before.oracle
    &&& after.chart == before.chart
}

/// The tape never holds more than 100 trades: adding one to a tape of at
/// most 100 leaves at most 100.
pub proof fn law_tape_bounded(before: Market, after: Market, price: Dec, size: Dec, side: OrderSide)
    requires
        before.recent_trades@.len() <= 100,
        trade_recorded(before, after, price, size, side),
    ensures
        after.recent_trades@.len() <= 100,
        after.recent_trades@.len() >= 1,
        after.recent_trades@.last().price == price,
{
}

impl Market {
    /// Valid book, prices, chart and trades.
    pub open spec fn wf(self) -> bool {
        &&& self.orderbook.wf()
        &&& self.oracle.wf()
        &&& self.chart.wf()
        &&& forall|i: int| 0 <= i < self.recent_trades@.len() ==> (#[trigger] self.recent_trades@[i]).price.wf()
            && self.recent_trades@[i].size.wf()
    }

    /// An empty market called `symbol` with a 15-minute chart keeping 200
    /// candles.
    pub fn new(symbol: &str) -> (r: Market)
        ensures
            r.wf(),
            r.symbol@ == symbol@,
            r.orderbook.bid_levels() == Seq::<Level>::empty(),
            r.orderbook.ask_levels() == Seq::<Level>::empty(),
            r.oracle == Oracle::spec_new(),
            r.chart.finished().len() == 0,
            r.chart.in_progress() == None::<Candle>,
            r.chart.capacity() == 200,
            r.chart.frame() == Timeframe::M15,
            r.recent_trades@.len() == 0,
    {
        Market {
            symbol: String::from_str(symbol),
            orderbook: OrderBook::new(),
            oracle: Oracle::new(),
            chart: CandleChart::new(200),
            recent_trades: Vec::new(),
        }
    }

    /// Rests ten one-unit bids at `base - 10k` and ten one-unit asks at
    /// `base + 10k` for `k` from 1 to 10, placed by `"seed"`, in the order
    /// bid 1, ask 1, bid 2, ask 2, ...
    pub fn seed_orderbook(&mut self, base_price: Dec, ids: &mut OrderIds)
        requires
            old(self).wf(),
            base_price.wf(),
            seed_in_range(base_price),
            old(ids).next + 20 < u64::MAX,
        ensures
            final(self).wf(),
            final(ids).next == old(ids).next + 20,
            seeded(
                old(self).orderbook.bid_levels(),
                old(self).orderbook.ask_levels(),
                final(self).orderbook,
                base_price,
                old(ids).next,
            ),
            final(self).symbol == old(self).symbol,
            final(self).oracle == old(self).oracle,
            final(self).chart == old(self).chart,
            final(self).recent_trades == old(self).recent_trades,
    {
        let ghost mut bids: Seq<Order> = seq![];
        let ghost mut asks: Seq<Order> = seq![];
        let ghost id0 = ids.next;
        let mut i: u64 = 1;
        while i <= 10
            invariant
                1 <= i <= 11,
                self.wf(),
                base_price.wf(),
                seed_in_range(base_price),
                id0 == old(ids).next,
                id0 + 20 < u64::MAX,
                ids.next == id0 + 2 * (i - 1),
                bids.len() == i - 1,
                asks.len() == i - 1,
                forall|k: int|
                    0 <= k < i - 1 ==> is_seed_order(
                        #[trigger] bids[k],
                        (id0 + 2 * k) as u64,
                        OrderSide::Buy,
                        ddiff(base_price, seed_offset(k + 1)),
                    ) && is_seed_order(
                        asks[k],
                        (id0 + 2 * k + 1) as u64,
                        OrderSide::Sell,
                        dsum(base_price, seed_offset(k + 1)),
                    ),
                self.orderbook.bid_levels() == insert_all(old(self).orderbook.bid_levels(), bids),
                self.orderbook.ask_levels() == insert_all(old(self).orderbook.ask_levels(), asks),
                self.symbol == old(self).symbol,
                self.oracle == old(self).oracle,
                self.chart == old(self).chart,
                self.recent_trades == old(self).recent_trades,
            decreases 11 - i,
        {
            let offset = Dec { mantissa: (i * 10) as i128, scale: 0 };
            proof {
                assert(offset == seed_offset(i as int));
                lemma_pow10_pos(28);
                lemma_offset_bound(i as int, pow10(28));
            }
            let lo = match dec_checked_sub(base_price, offset) {
                Some(x) => x,
                None => base_price,
            };
            let hi = match dec_checked_add(base_price, offset) {
                Some(x) => x,
                None => base_price,
            };
            let one = Dec::one();
            let bid = Order::new(
                ids,
                String::from_str("seed"),
                OrderSide::Buy,
                OrderType::Limit,
                lo,
                one,
                1,
            );
            let ask = Order::new(
                ids,
                String::from_str("seed"),
                OrderSide::Sell,
                OrderType::Limit,
                hi,
                one,
                1,
            );
            let ghost bid_g = bid;
            let ghost ask_g = ask;
            self.orderbook.add_order(bid);
            self.orderbook.add_order(ask);
            proof {
                let nb = bids.push(bid_g);
                let na = asks.push(ask_g);
                assert(nb.drop_last() =~= bids);
                assert(na.drop_last() =~= asks);
                assert forall|k: int|
                    0 <= k < i implies is_seed_order(
                    #[trigger] nb[k],
                    (id0 + 2 * k) as u64,
                    OrderSide::Buy,
                    ddiff(base_price, seed_offset(k + 1)),
                ) && is_seed_order(
                    na[k],
                    (id0 + 2 * k + 1) as u64,
                    OrderSide::Sell,
                    dsum(base_price, seed_offset(k + 1)),
                ) by {
                    if k < i - 1 {
                        assert(nb[k] == bids[k]);
                        assert(na[k] == asks[k]);
                    } else {
                        assert(nb[k] == bid_g);
                        assert(k + 1 == i);
                        assert(bid_g.user@ == "seed"@);
                        assert(bid_g.id == (id0 + 2 * k) as u64);
                        assert(bid_g.price == ddiff(base_price, seed_offset(k + 1)));
                        assert(is_seed_order(bid_g, (id0 + 2 * k) as u64, OrderSide::Buy, ddiff(base_price, seed_offset(k + 1))));
                    }
                }
                bids = nb;
                asks = na;
            }
            i = i + 1;
            proof {
                assert forall|k: int|
                    0 <= k < i - 1 implies is_seed_order(
                    #[trigger] bids[k],
                    (id0 + 2 * k) as u64,
                    OrderSide::Buy,
                    ddiff(base_price, seed_offset(k + 1)),
                ) && is_seed_order(
                    asks[k],
                    (id0 + 2 * k + 1) as u64,
                    OrderSide::Sell,
                    dsum(base_price, seed_offset(k + 1)),
                ) by {
                    assert(k < i);
                }
            }
        }
        proof {
            assert(seed_orders(bids, asks, base_price, id0));
        }
    }

    /// Appends the generated candles to the chart in turn, then sets the mark
    /// price to the last close, if there is one.
    pub fn load_history(&mut self, candles: &Vec<SimulatedCandle>)
        requires
            old(self).wf(),
            forall|k: int| 0 <= k < candles.len() ==> (#[trigger] candles@[k]).wf(),
            candles.len() > 0 ==> next_index_ok(old(self).oracle.index(), candles@.last().close),
        ensures
            final(self).wf(),
            final(self).chart.finished().len() == (if old(self).chart.finished().len() + candles.len()
                > old(self).chart.capacity() {
                old(self).chart.capacity() as int
            } else {
                old(self).chart.finished().len() + candles.len() as int
            }),
            exists|ts: Seq<i64>| history_loaded(old(self).chart, final(self).chart, candles@, ts),
            candles.len() > 0 ==> final(self).oracle.mark() == candles@.last().close,
            candles.len() > 0 ==> final(self).oracle.index() == next_index(
                old(self).oracle.index(),
                candles@.last().close,
            ),
            candles.len() == 0 ==> final(self).oracle == old(self).oracle,
            final(self).orderbook == old(self).orderbook,
            final(self).symbol == old(self).symbol,
            final(self).recent_trades == old(self).recent_trades,
    {
        let ghost mut ts: Seq<i64> = seq![];
        let mut k: usize = 0;
        while k < candles.len()
            invariant
                0 <= k <= candles.len(),
                ts.len() == k,
                forall|q: int| 0 <= q < k ==> stamp_of(#[trigger] candles@[q], ts[q]),
                self.chart.finished() == push_all(
                    old(self).chart.finished(),
                    history_candles(candles@.take(k as int), ts),
                    old(self).chart.capacity(),
                ),
                self.chart.in_progress() == old(self).chart.in_progress(),
                self.chart.frame() == old(self).chart.frame(),
                self.recent_trades == old(self).recent_trades,
                self.wf(),
                forall|q: int| 0 <= q < candles.len() ==> (#[trigger] candles@[q]).wf(),
                self.oracle == old(self).oracle,
                self.orderbook == old(self).orderbook,
                self.symbol == old(self).symbol,
                self.chart.capacity() == old(self).chart.capacity(),
                self.chart.finished().len() == (if old(self).chart.finished().len() + k
                    > old(self).chart.capacity() {
                    old(self).chart.capacity() as int
                } else {
                    old(self).chart.finished().len() + k as int
                }),
            decreases candles.len() - k,
        {
            let sc = candles[k];
            let candle = Candle {
                open: sc.open,
                high: sc.high,
                low: sc.low,
                close: sc.close,
                volume: sc.volume,
                timestamp: sc.timestamp(),
            };
            let ghost before = history_candles(candles@.take(k as int), ts);
            self.chart.push_historical(candle);
            proof {
                let ts2 = ts.push(candle.timestamp);
                let cs2 = history_candles(candles@.take(k as int + 1), ts2);
                assert(cs2.drop_last() =~= before);
                assert(cs2.last() == candle);
                ts = ts2;
            }
            k = k + 1;
        }
        proof {
            assert(candles@.take(k as int) =~= candles@);
        }
        if candles.len() > 0 {
            let last = candles[candles.len() - 1];
            self.oracle.set_price(last.close);
        }
        proof {
            assert(history_loaded(old(self).chart, self.chart, candles@, ts));
        }
    }

    /// Whether `load_history(candles)` can move the index to the last close
    /// without overflow (its one condition beyond valid amounts).
    pub fn load_history_checks(&self, candles: &Vec<SimulatedCandle>) -> (r: bool)
        requires
            self.wf(),
            forall|k: int| 0 <= k < candles.len() ==> (#[trigger] candles@[k]).wf(),
        ensures
            r == (candles.len() > 0 ==> next_index_ok(self.oracle.index(), candles@.last().close)),
    {
        if candles.len() == 0 {
            return true;
        }
        let last = candles[candles.len() - 1];
        self.oracle.next_index_checks(last.close)
    }

    /// Matches `order` against this market's book (`match_order`).
    pub fn submit_order(&mut self, order: Order) -> (fills: Vec<FillEvent>)
        requires
            old(self).wf(),
            order.wf(),
            match_ok(old(self).orderbook, order),
        ensures
            final(self).wf(),
            order_matched(*old(self), *final(self), order, fills@),
    {
        match_order(&mut self.orderbook, order)
    }

    /// `submit_order` where the arithmetic may overflow: `None` exactly then
    /// (the book is then left part way).
    pub fn try_submit_order(&mut self, order: Order) -> (r: Option<Vec<FillEvent>>)
        requires
            old(self).wf(),
            order.wf(),
        ensures
            final(self).wf(),
            r is Some == match_ok(old(self).orderbook, order),
            r matches Some(fills) ==> order_matched(*old(self), *final(self), order, fills@),
            r is None ==> final(self).symbol == old(self).symbol,
    {
        try_match_order(&mut self.orderbook, order)
    }

    /// Cancels the order with identifier `order_id` in this market's book.
    pub fn cancel_order(&mut self, order_id: OrderId) -> (r: bool)
        requires
            old(self).wf(),
        ensures
            final(self).wf(),
            order_cancelled(*old(self), *final(self), order_id, r),
    {
        self.orderbook.cancel_order(order_id)
    }

    /// Adds a trade to the tape, keeping the latest 100.
    pub fn add_recent_trade(&mut self, price: Dec, size: Dec, side: OrderSide)
        requires
            old(self).wf(),
            price.wf(),
            size.wf(),
        ensures
            final(self).wf(),
            trade_recorded(*old(self), *final(self), price, size, side),
    {
        let ghost before = self.recent_trades@;
        self.recent_trades.push(RecentTrade { price, size, side, timestamp: now_secs() });
        if self.recent_trades.len() > 100 {
            self.recent_trades.remove(0);
            proof {
                assert(self.recent_trades@.drop_last() =~= before.drop_first());
            }
        } else {
            proof {
                assert(self.recent_trades@.drop_last() =~= before);
            }
        }
        proof {
            assert forall|i: int| 0 <= i < self.recent_trades@.len() implies (
            #[trigger] self.recent_trades@[i]).price.wf() && self.recent_trades@[i].size.wf() by {
                if self.recent_trades@.len() == before.len() + 1 {
                    if i < before.len() {
                        assert(self.recent_trades@[i] == before[i]);
                    }
                } else {
                    if i + 1 < before.len() {
                        assert(self.recent_trades@[i] == before[i + 1]);
                    }
                }
            }
        }
    }
}

} // verus!
