use rust_decimal::Decimal;
use std::str::FromStr;
use terminal_perps::app::side_from_saved;
use terminal_perps::candles::{compute_ema, try_compute_ema, CandleChart, Timeframe};
use terminal_perps::decimal::Dec;
use terminal_perps::display::account_totals;
use terminal_perps::engine::Engine;
use terminal_perps::market::{Market, SimulatedCandle};
use terminal_perps::matcher::match_order;
use terminal_perps::oracle::Oracle;
use terminal_perps::orderbook::{Order, OrderBook, OrderIds, OrderSide, OrderType};
use terminal_perps::user::{Position, UserAccount};

fn d(s: &str) -> Dec {
    let x = Decimal::from_str(s).unwrap();
    Dec { mantissa: x.mantissa(), scale: x.scale() }
}

fn v(x: Dec) -> Decimal {
    Decimal::from_i128_with_scale(x.mantissa, x.scale)
}

fn sim(open: &str, high: &str, low: &str, close: &str, volume: &str, t: i64) -> SimulatedCandle {
    SimulatedCandle { open: d(open), high: d(high), low: d(low), close: d(close), volume: d(volume), timestamp_secs: t }
}

#[test]
fn market_opens_on_the_fifteen_minute_chart() {
    let m = Market::new("TEST-PERP");
    assert_eq!(m.chart.timeframe(), Timeframe::M15);
}

#[test]
fn history_is_loaded_candle_by_candle() {
    let mut m = Market::new("TEST-PERP");
    let history = vec![sim("10", "12", "9", "11", "5", 1_700_000_000), sim("11", "11.5", "10", "10.5", "3", 1_700_000_900)];
    assert!(m.load_history_checks(&history));
    m.load_history(&history);
    let cs = m.chart.candles();
    assert_eq!(cs.len(), 2);
    assert_eq!((v(cs[0].open), v(cs[0].high), v(cs[0].low), v(cs[0].close)), (Decimal::from(10), Decimal::from(12), Decimal::from(9), Decimal::from(11)));
    assert_eq!(v(cs[0].volume), Decimal::from(5));
    assert_eq!(cs[0].timestamp, 1_700_000_000);
    assert_eq!((v(cs[1].high), v(cs[1].low), v(cs[1].close)), (Decimal::from_str("11.5").unwrap(), Decimal::from(10), Decimal::from_str("10.5").unwrap()));
    assert_eq!(cs[1].timestamp, 1_700_000_900);
    assert_eq!(v(m.oracle.price()), Decimal::from_str("10.5").unwrap());
    assert_eq!(v(m.oracle.index_price()), Decimal::from_str("49950.0105").unwrap());
}

#[test]
fn empty_history_leaves_the_market_alone() {
    let mut m = Market::new("TEST-PERP");
    assert!(m.load_history_checks(&Vec::new()));
    m.load_history(&Vec::new());
    assert!(m.chart.candles().is_empty());
    assert_eq!(v(m.oracle.index_price()), Decimal::from(50000));
}

#[test]
fn index_check_accepts_even_the_largest_close() {
    let o = Oracle::new();
    assert!(o.next_index_checks(d("10.5")));
    let huge = Dec { mantissa: terminal_perps::decimal::MAX_MANTISSA, scale: 0 };
    assert!(o.next_index_checks(huge));
    assert!(o.next_index_checks(Dec { mantissa: -terminal_perps::decimal::MAX_MANTISSA, scale: 0 }));
    let mut m = Market::new("TEST-PERP");
    let history = vec![sim("1", "1", "1", "1", "1", 0), SimulatedCandle { close: huge, ..sim("1", "1", "1", "1", "1", 900) }];
    assert!(m.load_history_checks(&history));
    m.load_history(&history);
    assert_eq!(m.oracle.price(), huge);
}

#[test]
fn next_market_visits_every_market_once_per_round() {
    let mut e = Engine::new();
    let start = e.current_market.clone();
    let n = e.markets.len();
    let mut seen = Vec::new();
    for _ in 0..n {
        let before = e.current_market.clone();
        e.next_market();
        assert_ne!(e.current_market, before);
        seen.push(e.current_market.clone());
    }
    assert_eq!(e.current_market, start);
    for i in 0..n {
        for j in (i + 1)..n {
            assert_ne!(seen[i], seen[j]);
        }
    }
}

#[test]
fn matching_never_leaves_the_book_crossed() {
    let mut ids = OrderIds::new();
    let mut book = OrderBook::new();
    for (p, s) in [("101", "1"), ("102", "2"), ("103", "3")] {
        book.add_order(Order::new(&mut ids, "maker".to_string(), OrderSide::Sell, OrderType::Limit, d(p), d(s), 5));
    }
    book.add_order(Order::new(&mut ids, "maker".to_string(), OrderSide::Buy, OrderType::Limit, d("99"), d("1"), 5));
    let taker = Order::new(&mut ids, "me".to_string(), OrderSide::Buy, OrderType::Limit, d("101.5"), d("2"), 5);
    let fills = match_order(&mut book, taker);
    assert_eq!(fills.len(), 1);
    assert_eq!(v(book.best_bid().unwrap()), Decimal::from_str("101.5").unwrap());
    assert_eq!(v(book.best_ask().unwrap()), Decimal::from(102));
    assert!(v(book.best_bid().unwrap()) < v(book.best_ask().unwrap()));
    let seller = Order::new(&mut ids, "other".to_string(), OrderSide::Sell, OrderType::Limit, d("100"), d("3"), 5);
    let fills = match_order(&mut book, seller);
    assert_eq!(fills.len(), 1);
    assert_eq!(v(book.best_ask().unwrap()), Decimal::from(100));
    assert_eq!(v(book.best_bid().unwrap()), Decimal::from(99));
}

fn position(market: &str, pnl: &str) -> Position {
    Position {
        market: market.to_string(),
        side: OrderSide::Buy,
        size: d("1"),
        entry_price: d("100"),
        margin: d("20"),
        leverage: 5,
        unrealized_pnl: d(pnl),
        liquidation_price: d("81"),
        opened_at: 0,
    }
}

#[test]
fn account_totals_give_margin_used_and_total_pnl() {
    let u = UserAccount {
        pubkey: "key".to_string(),
        balance: d("1000"),
        available_balance: d("960"),
        positions: vec![position("BTC-PERP", "12.5"), position("ETH-PERP", "-2.25")],
        order_history: Vec::new(),
        fill_history: Vec::new(),
    };
    let (margin, pnl) = account_totals(&u).unwrap();
    assert_eq!(v(margin), Decimal::from(40));
    assert_eq!(v(pnl), Decimal::from_str("10.25").unwrap());
    let empty = UserAccount { positions: Vec::new(), ..u };
    assert_eq!(v(account_totals(&empty).unwrap().1), Decimal::ZERO);
}

#[test]
fn saved_sides_must_be_buy_or_sell() {
    assert_eq!(side_from_saved("Buy"), Some(OrderSide::Buy));
    assert_eq!(side_from_saved("Sell"), Some(OrderSide::Sell));
    assert_eq!(side_from_saved("Long"), None);
    assert_eq!(side_from_saved(""), None);
}

#[test]
fn candle_times_within_chrono_range_are_kept() {
    let last = SimulatedCandle { timestamp_secs: 8_210_266_876_799, ..sim("1", "1", "1", "1", "1", 0) };
    assert_eq!(last.timestamp(), 8_210_266_876_799);
    let first = SimulatedCandle { timestamp_secs: -8_334_601_228_800, ..sim("1", "1", "1", "1", "1", 0) };
    assert_eq!(first.timestamp(), -8_334_601_228_800);
    let beyond = SimulatedCandle { timestamp_secs: 8_210_266_876_800, ..sim("1", "1", "1", "1", "1", 0) };
    assert_ne!(beyond.timestamp(), 8_210_266_876_800);
    let before = SimulatedCandle { timestamp_secs: -8_334_601_228_801, ..sim("1", "1", "1", "1", "1", 0) };
    assert_ne!(before.timestamp(), -8_334_601_228_801);
}

#[test]
fn ema_with_checked_arithmetic() {
    let closes = vec![d("1"), d("2"), d("3"), d("4"), d("5")];
    let plain = compute_ema(&closes, 3, d("0.5"));
    assert_eq!(try_compute_ema(&closes, 3, d("0.5")), Some(plain.clone()));
    assert_eq!(plain.iter().map(|x| v(*x)).collect::<Vec<_>>(), vec![Decimal::ZERO, Decimal::ZERO, Decimal::from(2), Decimal::from(3), Decimal::from(4)]);
    assert_eq!(try_compute_ema(&closes, 6, d("0.5")), Some(Vec::new()));
    let max = Dec { mantissa: terminal_perps::decimal::MAX_MANTISSA, scale: 0 };
    assert_eq!(try_compute_ema(&vec![max, max, d("1")], 2, d("0.5")), None);
    assert_eq!(try_compute_ema(&vec![max, d("1"), d("-1")], 1, d("2")), None);
    let chart = CandleChart::new(10);
    assert_eq!(chart.try_compute_ema(1, d("0.5")), Some(Vec::new()));
}
