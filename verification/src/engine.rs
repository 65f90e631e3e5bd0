//! The exchange: its markets, the one being traded, funding and liquidation.
use vstd::prelude::*;
use crate::candles::{Candle, Timeframe, tick_ok, ticked};
use crate::decimal::{Dec, add_ok, pow10, lemma_pow10_pos};
use crate::funding::FundingRate;
use crate::liquidator::{LiqState, Liquidator, check_liquidations, liquidated_via, liquidation_fails};
use crate::market::{Market, order_cancelled, order_matched, seeded, trade_recorded};
use crate::matcher::{FillEvent, match_ok};
use crate::oracle::Oracle;
use crate::orderbook::{Level, OrderBook, OrderId, OrderIds, OrderSide, Order, first_index, lemma_first_index, lemma_first_index_unique};
use crate::text::str_eq;
use crate::user::{UserAccount, maint_rate};

verus! {

/// The exchange.  Markets are kept in the order they were opened, at most one
/// per symbol; `current_market` is the symbol of the one being traded.
pub struct Engine {
    pub markets: Vec<Market>,
    pub current_market: String,
    pub funding: FundingRate,
    pub liquidator: Liquidator,
    pub order_ids: OrderIds,
}

/// The market has symbol `s`.
pub open spec fn has_symbol(s: Seq<char>) -> spec_fn(Market) -> bool {
    |m: Market| m.symbol@ == s
}

/// Index of the market with symbol `s` (the length when there is none).
pub open spec fn market_index(ms: Seq<Market>, s: Seq<char>) -> nat {
    first_index(ms, has_symbol(s))
}

/// Valid markets with distinct symbols.
pub open spec fn markets_wf(ms: Seq<Market>) -> bool {
    &&& forall|i: int| 0 <= i < ms.len() ==> (#[trigger] ms[i]).wf()
    &&& forall|i: int, j: int|
        0 <= i < j < ms.len() ==> (#[trigger] ms[i]).symbol@ != (#[trigger] ms[j]).symbol@
}

/// A decimal holding the whole number `n`.
pub open spec fn whole(n: int) -> Dec {
    Dec { mantissa: n as i128, scale: 0 }
}

/// A market freshly opened as `symbol` and seeded around `base` with order
/// identifiers from `first_id`.
pub open spec fn opened(m: Market, symbol: Seq<char>, base: Dec, first_id: u64) -> bool {
    &&& m.symbol@ == symbol
    &&& seeded(Seq::<Level>::empty(), Seq::<Level>::empty(), m.orderbook, base, first_id)
    &&& m.oracle == Oracle::spec_new()
    &&& m.chart.finished().len() == 0
    &&& m.chart.in_progress() == None::<Candle>
    &&& m.chart.capacity() == 200
    &&& m.chart.frame() == Timeframe::M15
    &&& m.recent_trades@.len() == 0
}

/// `e` is the exchange as `Engine::new` opens it: three markets, each seeded
/// with ten levels a side, `BTC-PERP` around 45000, `ETH-PERP` around 2400
/// and `SOL-PERP` around 95, in that order; `BTC-PERP` is current; a zero
/// funding rate; the default maintenance rate; order identifiers 1 to 60
/// used.
pub open spec fn fresh_engine(e: Engine) -> bool {
    &&& e.wf()
    &&& e.markets@.len() == 3
    &&& opened(e.markets@[0], "BTC-PERP"@, whole(45000), 1)
    &&& opened(e.markets@[1], "ETH-PERP"@, whole(2400), 21)
    &&& opened(e.markets@[2], "SOL-PERP"@, whole(95), 41)
    &&& e.current_market@ == "BTC-PERP"@
    &&& e.funding.rate == (Dec { mantissa: 0, scale: 0 })
    &&& e.liquidator.maintenance_margin == maint_rate()
    &&& e.order_ids.next == 61
}

impl Engine {
    /// Valid markets with distinct symbols, of which the current one is one;
    /// valid funding rate and maintenance rate.
    pub open spec fn wf(self) -> bool {
        &&& markets_wf(self.markets@)
        &&& market_index(self.markets@, self.current_market@) < self.markets@.len()
        &&& self.funding.rate.wf()
        &&& self.liquidator.maintenance_margin.wf()
    }

    /// Index of the current market.
    pub open spec fn current(self) -> int {
        market_index(self.markets@, self.current_market@) as int
    }

    /// The current market.
    pub open spec fn current_spec(self) -> Market {
        self.markets@[self.current()]
    }

    /// The exchange with three markets, each seeded with ten levels a side:
    /// `BTC-PERP` around 45000, `ETH-PERP` around 2400 and `SOL-PERP` around
    /// 95, in that order; `BTC-PERP` is traded first.
    pub fn new() -> (r: Engine)
        ensures
            fresh_engine(r),
    {
        proof {
            lemma_pow10_pos(28);
            reveal_strlit("BTC-PERP");
            reveal_strlit("ETH-PERP");
            reveal_strlit("SOL-PERP");
        }
        let mut ids = OrderIds::new();
        let mut btc = Market::new("BTC-PERP");
        let b = Dec::from_u64(45000);
        proof {
            lemma_seed_base_in_range(45000);
        }
        btc.seed_orderbook(b, &mut ids);
        let mut eth = Market::new("ETH-PERP");
        let e = Dec::from_u64(2400);
        proof {
            lemma_seed_base_in_range(2400);
        }
        eth.seed_orderbook(e, &mut ids);
        let mut sol = Market::new("SOL-PERP");
        let s = Dec::from_u64(95);
        proof {
            lemma_seed_base_in_range(95);
        }
        sol.seed_orderbook(s, &mut ids);
        let markets = vec![btc, eth, sol];
        let r = Engine {
            markets,
            current_market: String::from_str("BTC-PERP"),
            funding: FundingRate::new(),
            liquidator: Liquidator::new(),
            order_ids: ids,
        };
        proof {
            assert(r.markets@[0].symbol@ == "BTC-PERP"@);
            assert(r.markets@[1].symbol@ == "ETH-PERP"@);
            assert(r.markets@[2].symbol@ == "SOL-PERP"@);
            assert("BTC-PERP"@[0] != "ETH-PERP"@[0]);
            assert("BTC-PERP"@[0] != "SOL-PERP"@[0]);
            assert("ETH-PERP"@[0] != "SOL-PERP"@[0]);
            assert(has_symbol(r.current_market@)(r.markets@[0]));
            lemma_first_index(r.markets@, has_symbol(r.current_market@));
        }
        r
    }

    /// The current market, for changing it in place.
    pub fn current_market_mut(&mut self) -> (r: &mut Market)
        requires
            old(self).wf(),
        ensures
            *r == old(self).current_spec(),
            final(self).markets@ == old(self).markets@.update(old(self).current(), *final(r)),
            final(self).current_market == old(self).current_market,
            final(self).funding == old(self).funding,
            final(self).liquidator == old(self).liquidator,
            final(self).order_ids == old(self).order_ids,
    {
        let i = find_current(&self.markets, &self.current_market);
        &mut self.markets[i]
    }

    /// The current market.
    pub fn current_market(&self) -> (r: &Market)
        requires
            self.wf(),
        ensures
            *r == self.current_spec(),
    {
        let i = find_current(&self.markets, &self.current_market);
        &self.markets[i]
    }

    /// Makes `symbol` the current market when there is a market of that
    /// symbol; otherwise nothing changes.
    pub fn switch_market(&mut self, symbol: &str)
        requires
            old(self).wf(),
        ensures
            final(self).wf(),
            market_index(old(self).markets@, symbol@) < old(self).markets@.len() ==> final(self).current_market@ == symbol@,
            market_index(old(self).markets@, symbol@) >= old(self).markets@.len() ==> final(self).current_market == old(self).current_market,
            final(self).markets == old(self).markets,
            final(self).funding == old(self).funding,
            final(self).liquidator == old(self).liquidator,
            final(self).order_ids == old(self).order_ids,
    {
        let i = find_market(&self.markets, symbol);
        if i < self.markets.len() {
            self.current_market = symbol.to_owned();
        }
    }

    /// Makes the market after the current one current, the first after the
    /// last.
    pub fn next_market(&mut self)
        requires
            old(self).wf(),
        ensures
            final(self).wf(),
            final(self).current_market@ == old(self).markets@[(old(self).current() + 1) % old(self).markets@.len() as int].symbol@,
            final(self).current() == (old(self).current() + 1) % old(self).markets@.len() as int,
            final(self).current_market@ != old(self).current_market@ <==> old(self).markets@.len() > 1,
            final(self).markets == old(self).markets,
            final(self).funding == old(self).funding,
            final(self).liquidator == old(self).liquidator,
            final(self).order_ids == old(self).order_ids,
    {
        let pos = find_current(&self.markets, &self.current_market);
        let n = self.markets.len();
        let next = if pos < n - 1 {
            pos + 1
        } else {
            0
        };
        proof {
            if pos < n - 1 {
                vstd::arithmetic::div_mod::lemma_small_mod((pos + 1) as nat, n as nat);
            } else {
                assert((pos + 1) % (n as int) == 0) by (nonlinear_arith)
                    requires
                        pos + 1 == n,
                        n > 0,
                ;
            }
        }
        proof {
            lemma_first_index(self.markets@, has_symbol(self.current_market@));
        }
        self.current_market = self.markets[next].symbol.clone();
        proof {
            lemma_symbol_index(self.markets@, next as int);
        }
    }

    /// Matches `order` against the current market's book (`match_order`).
    pub fn submit_order(&mut self, order: Order) -> (fills: Vec<FillEvent>)
        requires
            old(self).wf(),
            order.wf(),
            match_ok(old(self).current_spec().orderbook, order),
        ensures
            final(self).wf(),
            order_matched(old(self).current_spec(), final(self).current_spec(), order, fills@),
            final(self).markets@ == old(self).markets@.update(
                old(self).current(),
                final(self).current_spec(),
            ),
            final(self).current() == old(self).current(),
            final(self).current_market == old(self).current_market,
            final(self).funding == old(self).funding,
            final(self).liquidator == old(self).liquidator,
            final(self).order_ids == old(self).order_ids,
    {
        let ghost before = *self;
        let market = self.current_market_mut();
        let fills = market.submit_order(order);
        proof {
            lemma_replace_market(before.markets@, before.current(), self.markets@[before.current()]);
        }
        fills
    }

    /// `submit_order` where the arithmetic may overflow: `None` exactly then
    /// (the book is then left part way).
    pub fn try_submit_order(&mut self, order: Order) -> (r: Option<Vec<FillEvent>>)
        requires
            old(self).wf(),
            order.wf(),
        ensures
            final(self).wf(),
            r is Some == match_ok(old(self).current_spec().orderbook, order),
            r matches Some(fills) ==> order_matched(
                old(self).current_spec(),
                final(self).current_spec(),
                order,
                fills@,
            ),
            final(self).markets@ == old(self).markets@.update(
                old(self).current(),
                final(self).current_spec(),
            ),
            final(self).current() == old(self).current(),
            final(self).current_market == old(self).current_market,
            final(self).funding == old(self).funding,
            final(self).liquidator == old(self).liquidator,
            final(self).order_ids == old(self).order_ids,
    {
        let ghost before = *self;
        let market = self.current_market_mut();
        let r = market.try_submit_order(order);
        proof {
            lemma_replace_market(before.markets@, before.current(), self.markets@[before.current()]);
        }
        r
    }

    /// Cancels the order with identifier `order_id` in the current market;
    /// returns whether there was one.
    pub fn cancel_order(&mut self, order_id: OrderId) -> (r: bool)
        requires
            old(self).wf(),
        ensures
            final(self).wf(),
            order_cancelled(old(self).current_spec(), final(self).current_spec(), order_id, r),
            final(self).markets@ == old(self).markets@.update(
                old(self).current(),
                final(self).current_spec(),
            ),
            final(self).current() == old(self).current(),
            final(self).current_market == old(self).current_market,
            final(self).funding == old(self).funding,
            final(self).liquidator == old(self).liquidator,
            final(self).order_ids == old(self).order_ids,
    {
        let ghost before = *self;
        let market = self.current_market_mut();
        let r = market.cancel_order(order_id);
        proof {
            lemma_replace_market(before.markets@, before.current(), self.markets@[before.current()]);
        }
        r
    }

    /// Adds a trade to the current market's tape.
    pub fn add_recent_trade(&mut self, price: Dec, size: Dec, side: OrderSide)
        requires
            old(self).wf(),
            price.wf(),
            size.wf(),
        ensures
            final(self).wf(),
            trade_recorded(old(self).current_spec(), final(self).current_spec(), price, size, side),
            final(self).markets@ == old(self).markets@.update(
                old(self).current(),
                final(self).current_spec(),
            ),
            final(self).current() == old(self).current(),
            final(self).current_market == old(self).current_market,
            final(self).funding == old(self).funding,
            final(self).liquidator == old(self).liquidator,
            final(self).order_ids == old(self).order_ids,
    {
        let ghost before = *self;
        let market = self.current_market_mut();
        market.add_recent_trade(price, size, side);
        proof {
            lemma_replace_market(before.markets@, before.current(), self.markets@[before.current()]);
        }
    }

    /// Runs a liquidation pass over `user` against the current market's
    /// book at its mark price, with this exchange's maintenance rate and
    /// order identifiers (`check_liquidations`).  Returns `false` when that
    /// overflows.
    pub fn run_liquidations(&mut self, user: &mut UserAccount) -> (r: bool)
        requires
            old(self).wf(),
            old(user).wf(),
            old(self).order_ids.next + old(user).positions@.len() < u64::MAX,
        ensures
            final(self).wf(),
            final(user).wf(),
            ({
                let m = old(self).current_spec();
                let n = final(self).current_spec();
                &&& r ==> exists|u1: UserAccount, tr: Seq<LiqState>|
                    #[trigger] liquidated_via(
                        *old(user),
                        m.orderbook,
                        old(self).order_ids.next,
                        m.oracle.mark(),
                        old(self).liquidator.maintenance_margin,
                        *final(user),
                        n.orderbook,
                        final(self).order_ids.next,
                        u1,
                        tr,
                    )
                &&& !r ==> liquidation_fails(
                    *old(user),
                    m.orderbook,
                    old(self).order_ids.next,
                    m.oracle.mark(),
                    old(self).liquidator.maintenance_margin,
                )
                &&& n == (Market { orderbook: n.orderbook, ..m })
            }),
            final(self).markets@ == old(self).markets@.update(
                old(self).current(),
                final(self).current_spec(),
            ),
            final(self).current() == old(self).current(),
            final(self).current_market == old(self).current_market,
            final(self).funding == old(self).funding,
            final(self).liquidator == old(self).liquidator,
    {
        let ghost before = *self;
        let ghost u0 = *user;
        let i = find_current(&self.markets, &self.current_market);
        let mut m = self.markets.remove(i);
        let ghost m0 = m;
        let ghost id0 = self.order_ids.next;
        let mark = m.oracle.price();
        let r = check_liquidations(
            self.liquidator.maintenance_margin,
            user,
            mark,
            &mut m.orderbook,
            &mut self.order_ids,
        );
        self.markets.insert(i, m);
        proof {
            assert(self.markets@ =~= before.markets@.update(i as int, m));
            lemma_replace_market(before.markets@, i as int, m);
            assert(self.current() == before.current());
            assert(self.current_spec() == m);
            assert(m0 == before.current_spec());
            if r {
                let (u1, tr) = choose|u1: UserAccount, tr: Seq<LiqState>|
                    liquidated_via(
                        u0,
                        m0.orderbook,
                        id0,
                        mark,
                        before.liquidator.maintenance_margin,
                        *user,
                        m.orderbook,
                        self.order_ids.next,
                        u1,
                        tr,
                    );
                assert(liquidated_via(
                    u0,
                    m0.orderbook,
                    id0,
                    mark,
                    before.liquidator.maintenance_margin,
                    *user,
                    m.orderbook,
                    self.order_ids.next,
                    u1,
                    tr,
                ));
            }
        }
        r
    }

    /// Records a trade at `price` of `volume` on the current market's chart,
    /// at the current time (`CandleChart::tick`, which reads the clock: the
    /// volume must add up to the candle in progress whatever time it reads).
    pub fn tick_chart(&mut self, price: Dec, volume: Dec)
        requires
            old(self).wf(),
            price.wf(),
            volume.wf(),
            old(self).current_spec().chart.in_progress() matches Some(c) ==> add_ok(c.volume, volume),
        ensures
            final(self).wf(),
            exists|now: i64|
                ticked(old(self).current_spec().chart, final(self).current_spec().chart, price, volume, now),
            chart_only_changed(old(self).current_spec(), final(self).current_spec()),
            final(self).markets@ == old(self).markets@.update(
                old(self).current(),
                final(self).current_spec(),
            ),
            final(self).current() == old(self).current(),
            final(self).current_market == old(self).current_market,
            final(self).funding == old(self).funding,
            final(self).liquidator == old(self).liquidator,
            final(self).order_ids == old(self).order_ids,
    {
        let ghost before = *self;
        let market = self.current_market_mut();
        let ghost c0 = market.chart;
        market.chart.tick(price, volume);
        let ghost c1 = market.chart;
        proof {
            lemma_replace_market(before.markets@, before.current(), self.markets@[before.current()]);
            let now = choose|now: i64| ticked(c0, c1, price, volume, now);
            assert(ticked(before.current_spec().chart, self.current_spec().chart, price, volume, now));
        }
    }

    /// `tick_chart` where the volume of the candle in progress may overflow:
    /// returns whether it did not; nothing changes when it would have.
    pub fn try_tick_chart(&mut self, price: Dec, volume: Dec) -> (r: bool)
        requires
            old(self).wf(),
            price.wf(),
            volume.wf(),
        ensures
            final(self).wf(),
            r ==> exists|now: i64|
                ticked(old(self).current_spec().chart, final(self).current_spec().chart, price, volume, now),
            !r ==> final(self).markets@ == old(self).markets@ && exists|now: i64|
                !tick_ok(old(self).current_spec().chart, volume, now),
            chart_only_changed(old(self).current_spec(), final(self).current_spec()),
            final(self).markets@ == old(self).markets@.update(
                old(self).current(),
                final(self).current_spec(),
            ),
            final(self).current() == old(self).current(),
            final(self).current_market == old(self).current_market,
            final(self).funding == old(self).funding,
            final(self).liquidator == old(self).liquidator,
            final(self).order_ids == old(self).order_ids,
    {
        let ghost before = *self;
        let market = self.current_market_mut();
        let ghost c0 = market.chart;
        let r = market.chart.try_tick(price, volume);
        let ghost c1 = market.chart;
        proof {
            lemma_replace_market(before.markets@, before.current(), self.markets@[before.current()]);
            if r {
                let now = choose|now: i64| ticked(c0, c1, price, volume, now);
                assert(ticked(before.current_spec().chart, self.current_spec().chart, price, volume, now));
            } else {
                assert(self.markets@ =~= before.markets@);
                let now = choose|now: i64| !tick_ok(c0, volume, now);
                assert(!tick_ok(before.current_spec().chart, volume, now));
            }
        }
        r
    }
}

/// `after` is market `before` with only its chart changed.
pub open spec fn chart_only_changed(before: Market, after: Market) -> bool {
    &&& after.symbol == before.symbol
    &&& after.orderbook == before.orderbook
    &&& after.oracle == before.oracle
    &&& after.recent_trades == before.recent_trades
}

/// Index of the market with symbol `symbol` (the number of markets when there
/// is none).
fn find_market(ms: &Vec<Market>, symbol: &str) -> (r: usize)
    ensures
        r == market_index(ms@, symbol@),
{
    let mut i: usize = 0;
    while i < ms.len() && !str_eq(ms[i].symbol.as_str(), symbol)
        invariant
            0 <= i <= ms@.len(),
            forall|j: int| 0 <= j < i ==> !has_symbol(symbol@)(#[trigger] ms@[j]),
        decreases ms@.len() - i,
    {
        i = i + 1;
    }
    proof {
        lemma_first_index_unique(ms@, has_symbol(symbol@), i as int);
    }
    i
}

/// Index of the market with symbol `symbol`, which there is.
fn find_current(ms: &Vec<Market>, symbol: &String) -> (r: usize)
    requires
        market_index(ms@, symbol@) < ms@.len(),
    ensures
        r == market_index(ms@, symbol@),
        r < ms@.len(),
{
    let mut i: usize = 0;
    while i < ms.len() && !(ms[i].symbol == *symbol)
        invariant
            0 <= i <= ms@.len(),
            forall|j: int| 0 <= j < i ==> !has_symbol(symbol@)(#[trigger] ms@[j]),
        decreases ms@.len() - i,
    {
        i = i + 1;
    }
    proof {
        lemma_first_index_unique(ms@, has_symbol(symbol@), i as int);
    }
    i
}

/// With distinct symbols, the market at index `i` is the one found by its
/// symbol.
proof fn lemma_symbol_index(ms: Seq<Market>, i: int)
    requires
        markets_wf(ms),
        0 <= i < ms.len(),
    ensures
        market_index(ms, ms[i].symbol@) == i,
{
    assert forall|j: int| 0 <= j < i implies !has_symbol(ms[i].symbol@)(#[trigger] ms[j]) by {
        assert(ms[j].symbol@ != ms[i].symbol@);
    }
    lemma_first_index_unique(ms, has_symbol(ms[i].symbol@), i);
}

/// Replacing a market by a valid one of the same symbol keeps the markets
/// valid and every market where it was.
pub(crate) proof fn lemma_replace_market(ms: Seq<Market>, i: int, m: Market)
    requires
        markets_wf(ms),
        0 <= i < ms.len(),
        m.wf(),
        m.symbol == ms[i].symbol,
    ensures
        markets_wf(ms.update(i, m)),
        forall|s: Seq<char>| #[trigger] market_index(ms.update(i, m), s) == market_index(ms, s),
{
    let ms2 = ms.update(i, m);
    assert forall|a: int, b: int| 0 <= a < b < ms2.len() implies (#[trigger] ms2[a]).symbol@ != (
    #[trigger] ms2[b]).symbol@ by {
        assert(ms[a].symbol@ != ms[b].symbol@);
    }
    assert forall|s: Seq<char>| #[trigger] market_index(ms2, s) == market_index(ms, s) by {
        lemma_first_index(ms, has_symbol(s));
        let f = market_index(ms, s) as int;
        assert forall|j: int| 0 <= j < f implies !has_symbol(s)(#[trigger] ms2[j]) by {
            assert(!has_symbol(s)(ms[j]));
        }
        lemma_first_index_unique(ms2, has_symbol(s), f);
    }
}

/// Pressing next market `k` times from the market at index `i` of `n`
/// lands on index `(i + k) mod n`: one more press (which moves from index
/// `c` to `(c + 1) mod n`) after `k - 1` presses lands there; `n` presses
/// come back to the start.
pub proof fn law_next_market_cycles(i: int, n: int, k: nat)
    requires
        0 <= i < n,
    ensures
        k > 0 ==> (after_presses(i, n, k - 1) + 1) % n == after_presses(i, n, k as int),
        after_presses(i, n, n) == i,
{
    if k > 0 {
        vstd::arithmetic::div_mod::lemma_add_mod_noop(i + k - 1, 1, n);
        if n > 1 {
            vstd::arithmetic::div_mod::lemma_small_mod(1, n as nat);
        } else {
            vstd::arithmetic::div_mod::lemma_mod_bound(i + k, n);
            vstd::arithmetic::div_mod::lemma_mod_bound((i + k - 1) % n + 1, n);
        }
    }
    vstd::arithmetic::div_mod::lemma_mod_add_multiples_vanish(i, n);
    vstd::arithmetic::div_mod::lemma_small_mod(i as nat, n as nat);
}

/// `x % n` for `0 <= x < 2n`: `x` below `n`, `x - n` from `n` on.
proof fn lemma_mod_once(x: int, n: int)
    requires
        0 <= x < 2 * n,
    ensures
        x % n == if x < n {
            x
        } else {
            x - n
        },
{
    if x < n {
        vstd::arithmetic::div_mod::lemma_small_mod(x as nat, n as nat);
    } else {
        vstd::arithmetic::div_mod::lemma_mod_sub_multiples_vanish(x, n);
        vstd::arithmetic::div_mod::lemma_small_mod((x - n) as nat, n as nat);
    }
}

/// The index reached from index `i` of `n` markets after `k` presses of
/// next market.
pub open spec fn after_presses(i: int, n: int, k: int) -> int {
    (i + k) % n
}

/// How many presses of next market take index `i` of `n` markets to index
/// `j`, counting a full round for `j == i`.
pub open spec fn presses_to(i: int, n: int, j: int) -> int {
    if j > i {
        j - i
    } else {
        j - i + n
    }
}

/// Pressing next market from the market at index `i` of `n` makes a tour:
/// the first `n` presses visit every market exactly once, the last of them
/// the starting one.
pub proof fn law_next_market_tour(i: int, n: int)
    requires
        0 <= i < n,
    ensures
        forall|k1: int, k2: int|
            1 <= k1 < k2 <= n ==> #[trigger] after_presses(i, n, k1) != #[trigger] after_presses(i, n, k2),
        forall|j: int|
            0 <= j < n ==> 1 <= #[trigger] presses_to(i, n, j) <= n && after_presses(
                i,
                n,
                presses_to(i, n, j),
            ) == j,
        after_presses(i, n, n) == i,
{
    assert forall|k1: int, k2: int| 1 <= k1 < k2 <= n implies #[trigger] after_presses(i, n, k1)
        != #[trigger] after_presses(i, n, k2) by {
        lemma_mod_once(i + k1, n);
        lemma_mod_once(i + k2, n);
    }
    assert forall|j: int| 0 <= j < n implies 1 <= #[trigger] presses_to(i, n, j) <= n
        && after_presses(i, n, presses_to(i, n, j)) == j by {
        lemma_mod_once(i + presses_to(i, n, j), n);
    }
    lemma_mod_once(i + n, n);
}

/// A base price of `n` whole units, `0 <= n <= 1000000`, leaves the seed
/// prices within range.
proof fn lemma_seed_base_in_range(n: int)
    requires
        0 <= n <= 1000000,
    ensures
        crate::market::seed_in_range(whole(n)),
{
    lemma_pow10_pos(28);
    let p = pow10(28);
    assert(whole(n).val() == n * p);
    assert(n * p - 100 * p >= -(crate::decimal::MAX_MANTISSA * p)) by (nonlinear_arith)
        requires
            n >= 0,
            p > 0,
            crate::decimal::MAX_MANTISSA > 2000000,
    ;
    assert(n * p + 100 * p <= crate::decimal::MAX_MANTISSA * p) by (nonlinear_arith)
        requires
            n <= 1000000,
            p > 0,
            crate::decimal::MAX_MANTISSA > 2000000,
    ;
}

} // verus!
