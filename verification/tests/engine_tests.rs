use rust_decimal::Decimal;
use terminal_perps::app::{screen_to_index, Screen};
use terminal_perps::candles::Timeframe;
use terminal_perps::decimal::Dec;
use terminal_perps::engine::Engine;
use terminal_perps::liquidator::Liquidator;

fn dec(d: Dec) -> Decimal {
    Decimal::from_i128_with_scale(d.mantissa, d.scale)
}

#[test]
fn timeframe_seconds_labels_and_cycle() {
    assert_eq!(Timeframe::M1.seconds(), 60);
    assert_eq!(Timeframe::M15.seconds(), 900);
    assert_eq!(Timeframe::D1.seconds(), 86400);
    assert_eq!(Timeframe::M60.label(), "1h");
    assert_eq!(Timeframe::D1.label(), "1D");
    assert_eq!(Timeframe::D1.next(), Timeframe::M1);
    assert_eq!(Timeframe::M15.next(), Timeframe::M60);
}

#[test]
fn engine_opens_three_seeded_markets() {
    let e = Engine::new();
    assert_eq!(e.markets.len(), 3);
    assert_eq!(e.current_market, "BTC-PERP");
    let m = e.current_market();
    assert_eq!(m.symbol, "BTC-PERP");
    assert_eq!(dec(m.orderbook.best_bid().unwrap()), Decimal::from(44990));
    assert_eq!(dec(m.orderbook.best_ask().unwrap()), Decimal::from(45010));
    assert_eq!(m.orderbook.bid_prices().len(), 10);
    assert_eq!(e.order_ids.next, 61);
}

#[test]
fn next_market_cycles_through_all() {
    let mut e = Engine::new();
    e.next_market();
    assert_eq!(e.current_market, "ETH-PERP");
    e.next_market();
    assert_eq!(e.current_market, "SOL-PERP");
    e.next_market();
    assert_eq!(e.current_market, "BTC-PERP");
}

#[test]
fn switch_market_ignores_unknown_symbols() {
    let mut e = Engine::new();
    e.switch_market("DOGE-PERP");
    assert_eq!(e.current_market, "BTC-PERP");
    e.switch_market("SOL-PERP");
    assert_eq!(e.current_market, "SOL-PERP");
}

#[test]
fn screen_numbers_follow_the_tabs() {
    assert_eq!(screen_to_index(Screen::Market), 0);
    assert_eq!(screen_to_index(Screen::Account), 3);
    assert_eq!(screen_to_index(Screen::Help), 5);
}

#[test]
fn maintenance_rate_is_the_binary_value_of_five_percent() {
    let l = Liquidator::new();
    assert_eq!(dec(l.maintenance_margin), Decimal::from_f64_retain(0.05).unwrap());
}

use std::str::FromStr;
use terminal_perps::candles::{compute_ema, Candle, CandleChart};
use terminal_perps::funding::FundingRate;
use terminal_perps::liquidator::{check_liquidations, margin_ratio};
use terminal_perps::market::{Market, SimulatedCandle};
use terminal_perps::matcher::FillEvent;
use terminal_perps::oracle::Oracle;
use terminal_perps::orderbook::{Order, OrderBook, OrderIds, OrderSide, OrderType};
use terminal_perps::user::UserAccount;

fn d(s: &str) -> Dec {
    let x = Decimal::from_str(s).unwrap();
    Dec { mantissa: x.mantissa(), scale: x.scale() }
}

fn long_fill(price: &str, size: &str, margin: &str) -> FillEvent {
    FillEvent {
        order_id: 1,
        user: "u".to_string(),
        side: OrderSide::Buy,
        price: d(price),
        size: d(size),
        margin_used: d(margin),
        leverage: 10,
    }
}

#[test]
fn oracle_index_follows_the_mark_by_a_thousandth() {
    let mut o = Oracle::new();
    assert_eq!(dec(o.price()), Decimal::from(50000));
    o.set_price(d("100"));
    assert_eq!(dec(o.price()), Decimal::from(100));
    assert_eq!(dec(o.index_price()), Decimal::from_str("49950.1").unwrap());
}

#[test]
fn oracle_read_gives_back_the_last_write() {
    let mut o = Oracle::new();
    o.set_price(d("123.45"));
    o.set_price(d("67.8"));
    assert_eq!(dec(o.price()), Decimal::from_str("67.8").unwrap());
    assert!(o.try_set_price(d("70")));
    assert_eq!(dec(o.price()), Decimal::from(70));
}

#[test]
fn funding_rate_is_a_tenth_of_the_premium() {
    let mut f = FundingRate::new();
    assert_eq!(dec(f.rate), Decimal::ZERO);
    let r = f.calculate_funding(d("101"), d("100"));
    assert_eq!(dec(r), Decimal::from_str("0.001").unwrap());
    assert_eq!(dec(f.rate), Decimal::from_str("0.001").unwrap());
    assert!(f.try_calculate_funding(d("1"), d("0")).is_none());
}

#[test]
fn longs_pay_funding_and_shorts_receive_it() {
    let f = FundingRate::new();
    let mut long = UserAccount::new();
    long.deposit(d("1000"));
    long.apply_fill(&long_fill("100", "1", "10"), d("100"));
    f.apply_funding(&mut long, d("0.001"), d("100"));
    assert_eq!(dec(long.balance), Decimal::from_str("999.9").unwrap());
    assert_eq!(dec(long.positions[0].margin), Decimal::from_str("9.9").unwrap());

    let mut short = UserAccount::new();
    short.deposit(d("1000"));
    let mut fill = long_fill("100", "1", "10");
    fill.side = OrderSide::Sell;
    short.apply_fill(&fill, d("100"));
    assert!(f.try_apply_funding(&mut short, d("0.001"), d("100")));
    assert_eq!(dec(short.balance), Decimal::from_str("1000.1").unwrap());
}

#[test]
fn candle_tracks_high_low_close_and_volume() {
    let mut c = Candle::new(d("100"), 0);
    c.update(d("110"), d("1"));
    c.update(d("90"), d("2"));
    assert_eq!(dec(c.high), Decimal::from(110));
    assert_eq!(dec(c.low), Decimal::from(90));
    assert_eq!(dec(c.close), Decimal::from(90));
    assert_eq!(dec(c.volume), Decimal::from(3));
    assert!(!c.is_up());
    assert_eq!(dec(c.body_size()), Decimal::from(10));
    assert_eq!(dec(c.wick_high()), Decimal::from(10));
    assert_eq!(dec(c.wick_low()), Decimal::ZERO);
    // the high and low always bracket the open and close
    assert!(c.low.mantissa <= c.open.mantissa && c.open.mantissa <= c.high.mantissa);
}

#[test]
fn chart_buckets_trades_and_keeps_its_capacity() {
    let mut ch = CandleChart::new(2);
    assert_eq!(ch.timeframe(), Timeframe::M15);
    ch.tick_at(d("100"), d("1"), 0);
    ch.tick_at(d("105"), d("1"), 100);
    assert_eq!(ch.candles().len(), 1);
    assert_eq!(dec(ch.candles()[0].volume), Decimal::from(1));
    ch.tick_at(d("110"), d("1"), 900);
    let cs = ch.candles();
    assert_eq!(cs.len(), 2);
    assert_eq!(dec(cs[0].close), Decimal::from(105));
    assert_eq!(cs[1].timestamp, 900);
    ch.tick_at(d("111"), d("1"), 1800);
    ch.tick_at(d("112"), d("1"), 2700);
    assert_eq!(ch.candles().len(), 3);
    ch.set_timeframe(Timeframe::M1);
    assert!(ch.candles().is_empty());
}

#[test]
fn ema_starts_with_the_average_of_the_first_period() {
    let closes = vec![d("1"), d("2"), d("3"), d("4"), d("5")];
    let ema: Vec<Decimal> = compute_ema(&closes, 3, d("0.5")).into_iter().map(dec).collect();
    assert_eq!(
        ema,
        vec![Decimal::ZERO, Decimal::ZERO, Decimal::from(2), Decimal::from(3), Decimal::from(4)]
    );
    assert!(compute_ema(&closes, 6, d("0.5")).is_empty());
}

#[test]
fn market_history_sets_the_mark_to_the_last_close() {
    let mut m = Market::new("TEST-PERP");
    let c = |close: &str, t: i64| SimulatedCandle {
        open: d("10"),
        high: d("12"),
        low: d("9"),
        close: d(close),
        volume: d("5"),
        timestamp_secs: t,
    };
    m.load_history(&vec![c("11", 0), c("10.5", 900)]);
    assert_eq!(m.chart.candles().len(), 2);
    assert_eq!(dec(m.oracle.price()), Decimal::from_str("10.5").unwrap());
}

#[test]
fn tape_keeps_the_latest_hundred_trades() {
    let mut m = Market::new("TEST-PERP");
    for i in 0..101u64 {
        m.add_recent_trade(Dec::from_u64(i), d("1"), OrderSide::Buy);
    }
    assert_eq!(m.recent_trades.len(), 100);
    assert_eq!(dec(m.recent_trades[0].price), Decimal::from(1));
    assert_eq!(dec(m.recent_trades[99].price), Decimal::from(100));
}

#[test]
fn engine_submit_and_cancel_in_the_current_market() {
    let mut e = Engine::new();
    let o = Order::new(&mut e.order_ids, "me".to_string(), OrderSide::Buy, OrderType::Limit, d("40000"), d("1"), 5);
    let id = o.id;
    let fills = e.submit_order(o);
    assert!(fills.is_empty());
    assert!(e.cancel_order(id));
    assert!(!e.cancel_order(id));
    let o = Order::new(&mut e.order_ids, "me".to_string(), OrderSide::Buy, OrderType::Market, d("0"), d("2"), 5);
    let fills = e.submit_order(o);
    assert_eq!(fills.len(), 2);
    e.add_recent_trade(fills[0].price, fills[0].size, fills[0].side);
    assert_eq!(e.current_market().recent_trades.len(), 1);
    e.tick_chart(d("45010"), d("2"));
    assert_eq!(e.current_market().chart.candles().len(), 1);
}

#[test]
fn seeded_books_are_ten_deep_around_the_base() {
    let e = Engine::new();
    let sol = &e.markets[2];
    assert_eq!(sol.symbol, "SOL-PERP");
    assert_eq!(dec(sol.orderbook.best_bid().unwrap()), Decimal::from(85));
    assert_eq!(dec(sol.orderbook.best_ask().unwrap()), Decimal::from(105));
    assert_eq!(dec(sol.orderbook.bid_prices()[0]), Decimal::from(-5));
}

#[test]
fn underwater_position_is_liquidated_with_a_penalty() {
    let mut ids = OrderIds::new();
    let mut book = OrderBook::new();
    book.add_order(Order::new(&mut ids, "maker".to_string(), OrderSide::Buy, OrderType::Limit, d("89"), d("1"), 1));
    let mut u = UserAccount::new();
    u.deposit(d("1000"));
    u.apply_fill(&long_fill("100", "1", "10"), d("100"));
    let maint = Liquidator::new().maintenance_margin;
    assert!(check_liquidations(maint, &mut u, d("90"), &mut book, &mut ids));
    let rate = Decimal::from_f64_retain(0.01).unwrap();
    assert_eq!(dec(u.balance), Decimal::from(1000) - Decimal::from(10) * rate);
    assert_eq!(dec(u.available_balance), Decimal::from(1000) - Decimal::from(10) * rate);
    // the closing sell is booked as a fill of its own
    assert_eq!(u.positions.len(), 1);
    assert_eq!(u.positions[0].side, OrderSide::Sell);
    assert_eq!(dec(u.positions[0].entry_price), Decimal::from(89));
    // the maker's bid was taken and its emptied level dropped
    assert!(book.best_bid().is_none());
}

#[test]
fn healthy_position_is_left_alone() {
    let mut ids = OrderIds::new();
    let mut book = OrderBook::new();
    let mut u = UserAccount::new();
    u.apply_fill(&long_fill("100", "1", "10"), d("100"));
    assert_eq!(dec(margin_ratio(&u.positions[0], d("100")).unwrap()), Decimal::from_str("0.1").unwrap());
    let maint = Liquidator::new().maintenance_margin;
    assert!(check_liquidations(maint, &mut u, d("99"), &mut book, &mut ids));
    assert_eq!(u.positions.len(), 1);
    assert_eq!(dec(u.positions[0].unrealized_pnl), Decimal::from(-1));
}

#[test]
fn penalty_rate_is_the_binary_value_of_one_percent() {
    let r = Decimal::from_f64_retain(0.01).unwrap();
    assert_eq!(r, Decimal::from_i128_with_scale(100000000000000002081668171, 28));
}

#[test]
fn simulated_candle_keeps_a_representable_time() {
    let c = SimulatedCandle {
        open: d("1"),
        high: d("1"),
        low: d("1"),
        close: d("1"),
        volume: d("1"),
        timestamp_secs: 1_700_000_000,
    };
    assert_eq!(c.timestamp(), 1_700_000_000);
}
