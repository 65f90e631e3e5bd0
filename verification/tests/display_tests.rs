use rust_decimal::Decimal;
use std::str::FromStr;
use terminal_perps::candles::Candle;
use terminal_perps::decimal::Dec;
use terminal_perps::display::{build_visual_candles, chart_price_range, depth_ladder, ladder_rows, ladder_scale, spread};
use terminal_perps::orderbook::{Order, OrderBook, OrderIds, OrderSide, OrderType};

fn d(s: &str) -> Dec {
    let x = Decimal::from_str(s).unwrap();
    Dec { mantissa: x.mantissa(), scale: x.scale() }
}

fn v(x: Dec) -> Decimal {
    Decimal::from_i128_with_scale(x.mantissa, x.scale)
}

fn candle(o: &str, h: &str, l: &str, c: &str, vol: &str, t: i64) -> Candle {
    Candle { open: d(o), high: d(h), low: d(l), close: d(c), volume: d(vol), timestamp: t }
}

fn five() -> Vec<Candle> {
    vec![
        candle("10", "12", "9", "11", "1", 0),
        candle("11", "15", "10", "14", "2", 1),
        candle("14", "14", "8", "9", "3", 2),
        candle("9", "10", "7", "8", "4", 3),
        candle("8", "9", "6", "7", "5", 4),
    ]
}

#[test]
fn candles_that_fit_are_drawn_as_they_are() {
    let cs = five();
    let r = build_visual_candles(&cs, 10).unwrap();
    assert_eq!(r.len(), 5);
    assert_eq!(v(r[2].low), Decimal::from(8));
}

#[test]
fn candles_are_grouped_to_fit_the_slots() {
    let r = build_visual_candles(&five(), 2).unwrap();
    // groups of 5 / 2 = 2: [0, 1], [2, 3], [4]
    assert_eq!(r.len(), 3);
    assert_eq!(v(r[0].open), Decimal::from(10));
    assert_eq!(v(r[0].high), Decimal::from(15));
    assert_eq!(v(r[0].low), Decimal::from(9));
    assert_eq!(v(r[0].close), Decimal::from(14));
    assert_eq!(v(r[0].volume), Decimal::from(3));
    assert_eq!(r[0].timestamp, 1);
    // the group's low is its first candle's low
    assert_eq!(v(r[1].low), Decimal::from(8));
    assert_eq!(v(r[2].volume), Decimal::from(5));
}

#[test]
fn zero_slots_count_as_one() {
    let r = build_visual_candles(&five(), 0).unwrap();
    assert_eq!(r.len(), 1);
    assert_eq!(v(r[0].volume), Decimal::from(15));
    assert_eq!(v(r[0].close), Decimal::from(7));
}

#[test]
fn price_range_covers_candles_average_and_mark_with_padding() {
    let cs = five();
    let ema = vec![d("0"), d("5"), d("16")];
    let (bottom, top, width, max_vol) = chart_price_range(&cs, &ema, d("11")).unwrap();
    // lows down to 5 (the average), highs up to 16: range 11, padding 0.55
    assert_eq!(v(bottom), Decimal::from_str("4.45").unwrap());
    assert_eq!(v(top), Decimal::from_str("16.55").unwrap());
    assert_eq!(v(width), Decimal::from_str("12.10").unwrap());
    assert_eq!(v(max_vol), Decimal::from(5));
}

#[test]
fn flat_price_range_is_padded_by_one() {
    let cs = vec![candle("10", "10", "10", "10", "1", 0)];
    let (bottom, top, _, _) = chart_price_range(&cs, &vec![], d("10")).unwrap();
    assert_eq!(v(bottom), Decimal::from(9));
    assert_eq!(v(top), Decimal::from(11));
}

#[test]
fn depth_ladder_accumulates_sizes() {
    let levels = vec![(d("10"), d("1")), (d("11"), d("2")), (d("12"), d("3"))];
    let l = depth_ladder(&levels).unwrap();
    let totals: Vec<Decimal> = l.iter().map(|x| v(x.2)).collect();
    assert_eq!(totals, vec![Decimal::from(1), Decimal::from(3), Decimal::from(6)]);
    let other = depth_ladder(&vec![(d("9"), d("4"))]).unwrap();
    assert_eq!(v(ladder_scale(&l, &other)), Decimal::from(6));
    assert_eq!(v(ladder_scale(&vec![], &vec![])), Decimal::ONE);
}

#[test]
fn ladder_rows_share_the_panel() {
    assert_eq!(ladder_rows(10, 20), 8);
    assert_eq!(ladder_rows(3, 20), 3);
    assert_eq!(ladder_rows(3, 5), 0);
    assert_eq!(ladder_rows(3, 0), 0);
}

#[test]
fn spread_is_best_ask_less_best_bid() {
    let mut ids = OrderIds::new();
    let mut b = OrderBook::new();
    assert!(spread(&b).is_none());
    b.add_order(Order::new(&mut ids, "m".to_string(), OrderSide::Buy, OrderType::Limit, d("99.5"), d("1"), 1));
    assert!(spread(&b).is_none());
    b.add_order(Order::new(&mut ids, "m".to_string(), OrderSide::Sell, OrderType::Limit, d("100.25"), d("1"), 1));
    let (bid, ask, s) = spread(&b).unwrap();
    assert_eq!(v(bid), Decimal::from_str("99.5").unwrap());
    assert_eq!(v(ask), Decimal::from_str("100.25").unwrap());
    assert_eq!(v(s), Decimal::from_str("0.75").unwrap());
}
