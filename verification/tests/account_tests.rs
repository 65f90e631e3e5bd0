use rust_decimal::Decimal;
use std::str::FromStr;
use terminal_perps::decimal::Dec;
use terminal_perps::matcher::FillEvent;
use terminal_perps::orderbook::OrderSide;
use terminal_perps::user::{calculate_liquidation_price, calculate_pnl, generate_pubkey, UserAccount};

fn d(s: &str) -> Dec {
    let x = Decimal::from_str(s).unwrap();
    Dec { mantissa: x.mantissa(), scale: x.scale() }
}

fn v(x: Dec) -> Decimal {
    Decimal::from_i128_with_scale(x.mantissa, x.scale)
}

fn fill(side: OrderSide, price: &str, size: &str, margin: &str, lev: u32) -> FillEvent {
    FillEvent {
        order_id: 1,
        user: "u".to_string(),
        side,
        price: d(price),
        size: d(size),
        margin_used: d(margin),
        leverage: lev,
    }
}

fn maint() -> Decimal {
    Decimal::from_f64_retain(0.05).unwrap()
}

#[test]
fn new_account_is_empty_with_a_base58_key_of_32_bytes() {
    let u = UserAccount::new();
    assert_eq!(v(u.balance), Decimal::ZERO);
    assert!(u.positions.is_empty());
    let bytes = bs58::decode(&u.pubkey).into_vec().unwrap();
    assert_eq!(bytes.len(), 32);
}

#[test]
fn generated_keys_differ() {
    assert_ne!(generate_pubkey(), generate_pubkey());
}

#[test]
fn deposit_then_withdraw() {
    let mut u = UserAccount::new();
    u.deposit(d("100"));
    assert_eq!(v(u.balance), Decimal::from(100));
    assert_eq!(v(u.available_balance), Decimal::from(100));
    assert!(u.withdraw(d("40")));
    assert_eq!(v(u.balance), Decimal::from(60));
    assert!(!u.withdraw(d("61")));
    assert_eq!(v(u.available_balance), Decimal::from(60));
}

#[test]
fn pnl_of_long_and_short() {
    assert_eq!(v(calculate_pnl(OrderSide::Buy, d("2"), d("100"), d("110"))), Decimal::from(20));
    assert_eq!(v(calculate_pnl(OrderSide::Sell, d("2"), d("100"), d("110"))), Decimal::from(-20));
}

#[test]
fn liquidation_prices_use_the_maintenance_rate() {
    let one = Decimal::ONE;
    let tenth = one / Decimal::from(10);
    let long = v(calculate_liquidation_price(OrderSide::Buy, d("100"), 10));
    assert_eq!(long, Decimal::from(100) * (one - tenth + maint()));
    let short = v(calculate_liquidation_price(OrderSide::Sell, d("100"), 10));
    assert_eq!(short, Decimal::from(100) * (one + tenth - maint()));
}

#[test]
fn first_fill_opens_a_position() {
    let mut u = UserAccount::new();
    u.apply_fill(&fill(OrderSide::Buy, "100", "1", "10", 10), d("100"));
    assert_eq!(u.positions.len(), 1);
    let p = &u.positions[0];
    assert_eq!(p.market, "BTC-PERP");
    assert_eq!(p.side, OrderSide::Buy);
    assert_eq!(v(p.entry_price), Decimal::from(100));
    assert_eq!(v(p.margin), Decimal::from(10));
    assert_eq!(u.fill_history.len(), 1);
}

#[test]
fn same_side_fill_averages_the_entry() {
    let mut u = UserAccount::new();
    u.apply_fill(&fill(OrderSide::Buy, "100", "1", "10", 10), d("100"));
    u.apply_fill(&fill(OrderSide::Buy, "200", "1", "20", 10), d("200"));
    let p = &u.positions[0];
    assert_eq!(v(p.size), Decimal::from(2));
    assert_eq!(v(p.entry_price), Decimal::from(150));
    assert_eq!(v(p.margin), Decimal::from(30));
    assert_eq!(v(p.unrealized_pnl), Decimal::from(100));
}

#[test]
fn smaller_opposite_fill_reduces_and_realizes() {
    let mut u = UserAccount::new();
    u.deposit(d("1000"));
    u.apply_fill(&fill(OrderSide::Buy, "100", "2", "20", 10), d("100"));
    u.apply_fill(&fill(OrderSide::Sell, "110", "1", "11", 10), d("110"));
    let p = &u.positions[0];
    assert_eq!(v(p.size), Decimal::from(1));
    assert_eq!(v(p.margin), Decimal::from(9));
    assert_eq!(v(u.balance), Decimal::from(1010));
    assert_eq!(v(u.available_balance), Decimal::from(1021));
    assert_eq!(v(u.fill_history[1].pnl), Decimal::from(1010));
}

#[test]
fn larger_opposite_fill_closes_and_flips() {
    let mut u = UserAccount::new();
    u.deposit(d("1000"));
    u.apply_fill(&fill(OrderSide::Buy, "100", "1", "10", 10), d("100"));
    u.apply_fill(&fill(OrderSide::Sell, "90", "3", "27", 10), d("90"));
    assert_eq!(u.positions.len(), 1);
    let p = &u.positions[0];
    assert_eq!(p.side, OrderSide::Sell);
    assert_eq!(v(p.size), Decimal::from(2));
    assert_eq!(v(p.entry_price), Decimal::from(90));
    assert_eq!(v(p.margin), Decimal::from(27) * (Decimal::from(2) / Decimal::from(3)));
    assert_eq!(v(u.balance), Decimal::from(990));
    assert_eq!(v(u.available_balance), Decimal::from(1000));
}

#[test]
fn equal_opposite_fill_closes_the_position() {
    let mut u = UserAccount::new();
    u.apply_fill(&fill(OrderSide::Sell, "100", "1", "10", 10), d("100"));
    u.apply_fill(&fill(OrderSide::Buy, "95", "1", "9.5", 10), d("95"));
    assert!(u.positions.is_empty());
    assert_eq!(v(u.balance), Decimal::from(5));
}

#[test]
fn revaluing_positions_at_a_new_mark() {
    let mut u = UserAccount::new();
    u.apply_fill(&fill(OrderSide::Buy, "100", "3", "30", 10), d("100"));
    u.update_unrealized_pnl(d("90"));
    assert_eq!(v(u.positions[0].unrealized_pnl), Decimal::from(-30));
    assert!(u.pnl_all_ok(d("90")));
}

#[test]
fn try_apply_fill_refuses_an_overflow_and_leaves_the_account() {
    let mut u = UserAccount::new();
    let huge = "79228162514264337593543950335";
    u.apply_fill(&fill(OrderSide::Buy, huge, "1", "1", 1), d("1"));
    let before = u.positions.len();
    assert!(!u.try_apply_fill(&fill(OrderSide::Buy, huge, "1", "1", 1), d("1")));
    assert_eq!(u.positions.len(), before);
    assert_eq!(u.fill_history.len(), 1);
}
