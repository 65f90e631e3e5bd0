use rust_decimal::Decimal;
use std::str::FromStr;
use terminal_perps::decimal::Dec;
use terminal_perps::matcher::{match_order, try_match_order};
use terminal_perps::orderbook::{Order, OrderBook, OrderIds, OrderSide, OrderType};

fn d(s: &str) -> Dec {
    let x = Decimal::from_str(s).unwrap();
    Dec { mantissa: x.mantissa(), scale: x.scale() }
}

fn v(x: Dec) -> Decimal {
    Decimal::from_i128_with_scale(x.mantissa, x.scale)
}

fn order(ids: &mut OrderIds, user: &str, side: OrderSide, ty: OrderType, price: &str, size: &str) -> Order {
    Order::new(ids, user.to_string(), side, ty, d(price), d(size), 5)
}

fn book_with_asks(ids: &mut OrderIds) -> OrderBook {
    let mut b = OrderBook::new();
    b.add_order(order(ids, "maker", OrderSide::Sell, OrderType::Limit, "101", "1"));
    b.add_order(order(ids, "maker", OrderSide::Sell, OrderType::Limit, "102", "2"));
    b.add_order(order(ids, "maker", OrderSide::Sell, OrderType::Limit, "103", "3"));
    b
}

#[test]
fn order_ids_count_up_from_one() {
    let mut ids = OrderIds::new();
    assert_eq!(ids.next_order_id(), 1);
    assert_eq!(ids.next_order_id(), 2);
    let o = order(&mut ids, "u", OrderSide::Buy, OrderType::Limit, "1", "1");
    assert_eq!(o.id, 3);
    assert_eq!(v(o.remaining), Decimal::ONE);
}

#[test]
fn best_prices_and_level_lists() {
    let mut ids = OrderIds::new();
    let mut b = book_with_asks(&mut ids);
    b.add_order(order(&mut ids, "maker", OrderSide::Buy, OrderType::Limit, "99", "1"));
    b.add_order(order(&mut ids, "maker", OrderSide::Buy, OrderType::Limit, "98", "1"));
    assert_eq!(v(b.best_bid().unwrap()), Decimal::from(99));
    assert_eq!(v(b.best_ask().unwrap()), Decimal::from(101));
    let bids: Vec<Decimal> = b.bid_prices().into_iter().map(v).collect();
    assert_eq!(bids, vec![Decimal::from(98), Decimal::from(99)]);
    let asks: Vec<Decimal> = b.ask_prices().into_iter().map(v).collect();
    assert_eq!(asks, vec![Decimal::from(101), Decimal::from(102), Decimal::from(103)]);
}

#[test]
fn empty_book_has_no_best_prices() {
    let b = OrderBook::new();
    assert!(b.best_bid().is_none());
    assert!(b.best_ask().is_none());
}

#[test]
fn limit_buy_sweeps_best_levels_first_and_rests_the_rest() {
    let mut ids = OrderIds::new();
    let mut b = book_with_asks(&mut ids);
    let taker = order(&mut ids, "taker", OrderSide::Buy, OrderType::Limit, "102", "5");
    let fills = match_order(&mut b, taker);
    let prices: Vec<Decimal> = fills.iter().map(|f| v(f.price)).collect();
    let sizes: Vec<Decimal> = fills.iter().map(|f| v(f.size)).collect();
    assert_eq!(prices, vec![Decimal::from(101), Decimal::from(102)]);
    assert_eq!(sizes, vec![Decimal::from(1), Decimal::from(2)]);
    // the rest (2) rests as a bid at 102; the ask at 103 is untouched
    assert_eq!(v(b.best_bid().unwrap()), Decimal::from(102));
    assert_eq!(v(b.best_ask().unwrap()), Decimal::from(103));
    let (bids, _asks) = b.l2_snapshot(5);
    assert_eq!(v(bids[0].1), Decimal::from(2));
}

#[test]
fn fills_belong_to_the_taker_and_stay_within_its_limit() {
    let mut ids = OrderIds::new();
    let mut b = book_with_asks(&mut ids);
    let taker = order(&mut ids, "taker", OrderSide::Buy, OrderType::Limit, "102", "10");
    let id = taker.id;
    let fills = match_order(&mut b, taker);
    assert!(!fills.is_empty());
    for f in &fills {
        assert_eq!(f.order_id, id);
        assert_eq!(f.user, "taker");
        assert_eq!(f.side, OrderSide::Buy);
        assert_eq!(f.leverage, 5);
        assert!(v(f.price) <= Decimal::from(102));
    }
    // a resting buy never crosses: the best ask is above its limit
    assert!(v(b.best_ask().unwrap()) > Decimal::from(102));
}

#[test]
fn fills_come_at_rising_prices_for_a_buy_and_falling_for_a_sell() {
    let mut ids = OrderIds::new();
    let mut b = book_with_asks(&mut ids);
    let fills = match_order(&mut b, order(&mut ids, "t", OrderSide::Buy, OrderType::Market, "0", "6"));
    let prices: Vec<Decimal> = fills.iter().map(|f| v(f.price)).collect();
    assert_eq!(prices, vec![Decimal::from(101), Decimal::from(102), Decimal::from(103)]);

    let mut b = OrderBook::new();
    for p in ["97", "99", "98"] {
        b.add_order(order(&mut ids, "m", OrderSide::Buy, OrderType::Limit, p, "1"));
    }
    let fills = match_order(&mut b, order(&mut ids, "t", OrderSide::Sell, OrderType::Market, "0", "3"));
    let prices: Vec<Decimal> = fills.iter().map(|f| v(f.price)).collect();
    assert_eq!(prices, vec![Decimal::from(99), Decimal::from(98), Decimal::from(97)]);
}

#[test]
fn market_order_never_rests() {
    let mut ids = OrderIds::new();
    let mut b = book_with_asks(&mut ids);
    let fills = match_order(&mut b, order(&mut ids, "t", OrderSide::Buy, OrderType::Market, "0", "100"));
    assert_eq!(fills.len(), 3);
    assert!(b.best_bid().is_none());
    assert!(b.user_orders("t").is_empty());
}

#[test]
fn market_order_against_an_empty_side_does_nothing() {
    let mut ids = OrderIds::new();
    let mut b = OrderBook::new();
    let fills = match_order(&mut b, order(&mut ids, "t", OrderSide::Sell, OrderType::Market, "0", "1"));
    assert!(fills.is_empty());
    assert!(b.best_ask().is_none());
}

#[test]
fn limit_order_beyond_the_book_only_rests() {
    let mut ids = OrderIds::new();
    let mut b = book_with_asks(&mut ids);
    let fills = match_order(&mut b, order(&mut ids, "t", OrderSide::Buy, OrderType::Limit, "100", "1"));
    assert!(fills.is_empty());
    assert_eq!(v(b.best_bid().unwrap()), Decimal::from(100));
}

#[test]
fn oldest_order_at_a_price_fills_first() {
    let mut ids = OrderIds::new();
    let mut b = OrderBook::new();
    b.add_order(order(&mut ids, "first", OrderSide::Sell, OrderType::Limit, "50", "1"));
    b.add_order(order(&mut ids, "second", OrderSide::Sell, OrderType::Limit, "50", "1"));
    let fills = match_order(&mut b, order(&mut ids, "t", OrderSide::Buy, OrderType::Limit, "50", "1"));
    assert_eq!(fills.len(), 1);
    assert!(b.user_orders("first").is_empty());
    assert_eq!(b.user_orders("second").len(), 1);
}

#[test]
fn partial_fill_leaves_the_rest_of_the_resting_order() {
    let mut ids = OrderIds::new();
    let mut b = book_with_asks(&mut ids);
    let fills = match_order(&mut b, order(&mut ids, "t", OrderSide::Buy, OrderType::Limit, "102", "1.5"));
    assert_eq!(fills.len(), 2);
    assert_eq!(v(fills[1].size), Decimal::from_str("0.5").unwrap());
    let (_bids, asks) = b.l2_snapshot(10);
    assert_eq!(v(asks[0].0), Decimal::from(102));
    assert_eq!(v(asks[0].1), Decimal::from_str("1.5").unwrap());
}

#[test]
fn fill_margin_is_notional_over_leverage() {
    let mut ids = OrderIds::new();
    let mut b = book_with_asks(&mut ids);
    let fills = match_order(&mut b, order(&mut ids, "t", OrderSide::Buy, OrderType::Market, "0", "1"));
    // 1 * 101 / 5
    assert_eq!(v(fills[0].margin_used), Decimal::from_str("20.2").unwrap());
}

#[test]
fn try_match_order_reports_success() {
    let mut ids = OrderIds::new();
    let mut b = book_with_asks(&mut ids);
    let r = try_match_order(&mut b, order(&mut ids, "t", OrderSide::Buy, OrderType::Market, "0", "1"));
    assert_eq!(r.map(|f| f.len()), Some(1));
}

#[test]
fn added_order_can_be_cancelled_once_and_its_level_stays() {
    let mut ids = OrderIds::new();
    let mut b = OrderBook::new();
    let o = order(&mut ids, "u", OrderSide::Buy, OrderType::Limit, "10", "1");
    let id = o.id;
    b.add_order(o);
    assert!(b.cancel_order(id));
    assert!(!b.cancel_order(id));
    assert_eq!(b.bid_prices().len(), 1);
    assert!(b.user_orders("u").is_empty());
}

#[test]
fn cancel_of_an_unknown_id_finds_nothing() {
    let mut ids = OrderIds::new();
    let mut b = book_with_asks(&mut ids);
    assert!(!b.cancel_order(999));
    assert_eq!(b.ask_prices().len(), 3);
}

#[test]
fn remove_order_takes_it_from_its_level() {
    let mut ids = OrderIds::new();
    let mut b = book_with_asks(&mut ids);
    let removed = b.remove_order(OrderSide::Sell, d("102"), 2);
    assert_eq!(removed.map(|o| o.id), Some(2));
    assert!(b.remove_order(OrderSide::Sell, d("102"), 2).is_none());
    assert!(b.remove_order(OrderSide::Sell, d("150"), 1).is_none());
}

#[test]
fn cancel_random_order_takes_the_oldest_and_drops_an_emptied_level() {
    let mut ids = OrderIds::new();
    let mut b = OrderBook::new();
    b.add_order(order(&mut ids, "a", OrderSide::Buy, OrderType::Limit, "10", "1"));
    b.add_order(order(&mut ids, "b", OrderSide::Buy, OrderType::Limit, "10", "1"));
    assert!(b.cancel_random_order(OrderSide::Buy, d("10")));
    assert!(b.user_orders("a").is_empty());
    assert!(b.cancel_random_order(OrderSide::Buy, d("10")));
    assert!(b.bid_prices().is_empty());
    assert!(!b.cancel_random_order(OrderSide::Buy, d("10")));
}

#[test]
fn user_orders_lists_bids_then_asks() {
    let mut ids = OrderIds::new();
    let mut b = OrderBook::new();
    b.add_order(order(&mut ids, "u", OrderSide::Sell, OrderType::Limit, "20", "1"));
    b.add_order(order(&mut ids, "u", OrderSide::Buy, OrderType::Limit, "10", "1"));
    b.add_order(order(&mut ids, "other", OrderSide::Buy, OrderType::Limit, "11", "1"));
    let os = b.user_orders("u");
    assert_eq!(os.len(), 2);
    assert_eq!(os[0].side, OrderSide::Buy);
    assert_eq!(os[1].side, OrderSide::Sell);
}

#[test]
fn l2_snapshot_totals_each_level_and_keeps_the_closest() {
    let mut ids = OrderIds::new();
    let mut b = book_with_asks(&mut ids);
    b.add_order(order(&mut ids, "m", OrderSide::Sell, OrderType::Limit, "101", "4"));
    for p in ["90", "95", "93"] {
        b.add_order(order(&mut ids, "m", OrderSide::Buy, OrderType::Limit, p, "1"));
    }
    let (bids, asks) = b.l2_snapshot(2);
    let bid_prices: Vec<Decimal> = bids.iter().map(|x| v(x.0)).collect();
    assert_eq!(bid_prices, vec![Decimal::from(95), Decimal::from(93)]);
    assert_eq!(asks.len(), 2);
    assert_eq!(v(asks[0].0), Decimal::from(101));
    assert_eq!(v(asks[0].1), Decimal::from(5));
}

#[test]
fn iter_asks_sweeps_one_price() {
    let mut ids = OrderIds::new();
    let mut b = book_with_asks(&mut ids);
    let mut taker = order(&mut ids, "t", OrderSide::Buy, OrderType::Market, "0", "5");
    let mut fills = Vec::new();
    assert!(b.iter_asks(d("102"), &mut taker, &mut fills));
    assert_eq!(fills.len(), 1);
    assert_eq!(v(taker.remaining), Decimal::from(3));
    assert_eq!(v(b.best_ask().unwrap()), Decimal::from(101));
}

#[test]
fn iter_bids_sweeps_one_price() {
    let mut ids = OrderIds::new();
    let mut b = OrderBook::new();
    b.add_order(order(&mut ids, "m", OrderSide::Buy, OrderType::Limit, "10", "2"));
    let mut taker = order(&mut ids, "t", OrderSide::Sell, OrderType::Market, "0", "1");
    let mut fills = Vec::new();
    assert!(b.iter_bids(d("10"), &mut taker, &mut fills));
    assert_eq!(fills.len(), 1);
    assert_eq!(v(taker.remaining), Decimal::ZERO);
    let (bids, _) = b.l2_snapshot(1);
    assert_eq!(v(bids[0].1), Decimal::ONE);
}

#[test]
fn cancelling_an_order_added_to_an_existing_level_restores_the_book() {
    let mut ids = OrderIds::new();
    let mut b = book_with_asks(&mut ids);
    let before: Vec<(Decimal, Decimal)> = b.l2_snapshot(10).1.iter().map(|x| (v(x.0), v(x.1))).collect();
    let o = order(&mut ids, "late", OrderSide::Sell, OrderType::Limit, "102", "7");
    let id = o.id;
    b.add_order(o);
    assert!(b.cancel_order(id));
    let after: Vec<(Decimal, Decimal)> = b.l2_snapshot(10).1.iter().map(|x| (v(x.0), v(x.1))).collect();
    assert_eq!(before, after);
    assert!(b.totals_ok());
}
