use rust_decimal::Decimal;
use std::str::FromStr;
use terminal_perps::app::{
    field_from_index, field_to_index, order_type_from_text, order_type_name, screen_from_index,
    side_from_text, side_name, App, InputMode, Key, Overflow, Screen, TradeField, TradeForm,
};
use terminal_perps::decimal::Dec;
use terminal_perps::orderbook::{OrderSide, OrderType};

fn d(s: &str) -> Dec {
    let x = Decimal::from_str(s).unwrap();
    Dec { mantissa: x.mantissa(), scale: x.scale() }
}

fn v(x: Dec) -> Decimal {
    Decimal::from_i128_with_scale(x.mantissa, x.scale)
}

fn press(app: &mut App, c: char) {
    assert_eq!(app.handle_input(Key::Char(c), false), Ok(false));
}

fn key(app: &mut App, k: Key) {
    assert_eq!(app.handle_input(k, false), Ok(false));
}

fn typed(app: &mut App, s: &str) {
    for c in s.chars() {
        press(app, c);
    }
}

fn msg(app: &App) -> String {
    app.message.clone().unwrap_or_default()
}

fn deposit(app: &mut App, amount: &str) {
    app.current_screen = Screen::Account;
    press(app, 'd');
    typed(app, amount);
    key(app, Key::Enter);
}

/// Sets the trade form's texts directly.
fn form(app: &mut App, ty: OrderType, price: &str, size: &str, lev: &str) {
    app.trade_form.order_type = ty;
    app.trade_form.price = price.to_string();
    app.trade_form.size = size.to_string();
    app.trade_form.leverage = lev.to_string();
    app.current_screen = Screen::Trade;
    app.trade_form.field = TradeField::Side;
}

#[test]
fn default_trade_form() {
    let f = TradeForm::default();
    assert_eq!(f.side, OrderSide::Buy);
    assert_eq!(f.order_type, OrderType::Market);
    assert_eq!(f.leverage, "5");
    assert!(f.price.is_empty() && f.size.is_empty());
    assert_eq!(f.field, TradeField::Side);
}

#[test]
fn app_starts_on_the_market_screen_with_a_welcome() {
    let app = App::new();
    assert_eq!(app.current_screen, Screen::Market);
    assert_eq!(msg(&app), "Welcome to Terminal Perps! Press '?' for help.");
    assert_eq!(app.input_mode, InputMode::Normal);
    assert_eq!(app.ticks, 0);
}

#[test]
fn quit_keys() {
    let mut app = App::new();
    assert_eq!(app.handle_input(Key::Char('q'), false), Ok(true));
    assert_eq!(app.handle_input(Key::Char('c'), true), Ok(true));
    assert_eq!(app.handle_input(Key::Char('c'), false), Ok(false));
    app.input_mode = InputMode::Editing;
    assert_eq!(app.handle_input(Key::Char('q'), false), Ok(false));
    assert_eq!(app.input_buffer, "q");
}

#[test]
fn digits_switch_screens_and_question_mark_shows_help() {
    let mut app = App::new();
    press(&mut app, '3');
    assert_eq!(app.current_screen, Screen::Positions);
    press(&mut app, '5');
    assert_eq!(app.current_screen, Screen::History);
    press(&mut app, '?');
    assert_eq!(app.current_screen, Screen::Help);
    press(&mut app, '1');
    assert_eq!(app.current_screen, Screen::Market);
}

#[test]
fn arrows_move_the_row_or_the_focused_field() {
    let mut app = App::new();
    key(&mut app, Key::Up);
    assert_eq!(app.selected_row, 0);
    key(&mut app, Key::Down);
    key(&mut app, Key::Down);
    assert_eq!(app.selected_row, 2);
    press(&mut app, '2');
    key(&mut app, Key::Up);
    assert_eq!(app.trade_form.field, TradeField::Leverage);
    key(&mut app, Key::Down);
    assert_eq!(app.trade_form.field, TradeField::Side);
    app.cycle_trade_field(3);
    assert_eq!(app.trade_form.field, TradeField::Size);
}

#[test]
fn space_and_enter_toggle_side_and_type() {
    let mut app = App::new();
    press(&mut app, '2');
    press(&mut app, ' ');
    assert_eq!(app.trade_form.side, OrderSide::Sell);
    key(&mut app, Key::Down);
    key(&mut app, Key::Enter);
    assert_eq!(app.trade_form.order_type, OrderType::Limit);
    app.toggle_trade_field();
    assert_eq!(app.trade_form.order_type, OrderType::Market);
}

#[test]
fn typing_into_a_field() {
    let mut app = App::new();
    press(&mut app, '2');
    key(&mut app, Key::Down);
    key(&mut app, Key::Down);
    assert_eq!(app.trade_form.field, TradeField::Price);
    press(&mut app, '4');
    assert_eq!(app.input_mode, InputMode::Editing);
    typed(&mut app, "55x");
    key(&mut app, Key::Backspace);
    assert_eq!(app.input_buffer, "455");
    key(&mut app, Key::Enter);
    assert_eq!(app.trade_form.price, "455");
    assert_eq!(app.input_mode, InputMode::Normal);
    key(&mut app, Key::Enter);
    assert_eq!(app.input_buffer, "455");
    press(&mut app, '9');
    key(&mut app, Key::Esc);
    assert!(app.input_buffer.is_empty());
    assert_eq!(app.trade_form.price, "455");
}

#[test]
fn deposit_and_withdraw_from_the_account_screen() {
    let mut app = App::new();
    deposit(&mut app, "100");
    assert_eq!(msg(&app), "Deposited 100");
    assert_eq!(v(app.user.balance), Decimal::from(100));
    press(&mut app, 'w');
    assert_eq!(msg(&app), "Enter amount to withdraw:");
    typed(&mut app, "500");
    key(&mut app, Key::Enter);
    assert_eq!(msg(&app), "Insufficient balance");
    press(&mut app, 'w');
    typed(&mut app, "40");
    key(&mut app, Key::Enter);
    assert_eq!(msg(&app), "Withdrew 40");
    assert_eq!(v(app.user.available_balance), Decimal::from(60));
}

#[test]
fn an_amount_that_does_not_parse_is_ignored() {
    let mut app = App::new();
    deposit(&mut app, "abc");
    assert_eq!(msg(&app), "Enter amount to deposit:");
    assert_eq!(v(app.user.balance), Decimal::ZERO);
    assert_eq!(app.input_mode, InputMode::Normal);
}

#[test]
fn invalid_form_texts_are_reported() {
    let mut app = App::new();
    form(&mut app, OrderType::Limit, "", "1", "5");
    press(&mut app, 's');
    assert_eq!(msg(&app), "Invalid price");
    form(&mut app, OrderType::Market, "", "0", "5");
    press(&mut app, 's');
    assert_eq!(msg(&app), "Invalid size");
    form(&mut app, OrderType::Market, "", "1", "25");
    press(&mut app, 's');
    assert_eq!(msg(&app), "Leverage must be 1-20x");
    form(&mut app, OrderType::Market, "", "1", "0");
    press(&mut app, 's');
    assert_eq!(msg(&app), "Leverage must be 1-20x");
}

#[test]
fn order_needing_more_margin_than_available_is_refused() {
    let mut app = App::new();
    form(&mut app, OrderType::Market, "", "1", "5");
    press(&mut app, 's');
    assert_eq!(msg(&app), "Insufficient margin. Required: 9002, Available: 0");
    assert!(app.user.positions.is_empty());
}

#[test]
fn market_buy_fills_at_the_best_ask() {
    let mut app = App::new();
    deposit(&mut app, "100000");
    form(&mut app, OrderType::Market, "", "1", "5");
    press(&mut app, 's');
    assert_eq!(msg(&app), "Order submitted: Buy 1 @ 45010 with 5x leverage on BTC-PERP");
    assert_eq!(app.user.positions.len(), 1);
    assert_eq!(v(app.user.positions[0].entry_price), Decimal::from(45010));
    assert_eq!(v(app.user.positions[0].margin), Decimal::from(9002));
    let m = app.engine.current_market();
    assert_eq!(m.recent_trades.len(), 1);
    assert_eq!(m.chart.candles().len(), 1);
    assert_eq!(v(m.orderbook.best_ask().unwrap()), Decimal::from(45020));
}

#[test]
fn resting_limit_order_can_be_cancelled_from_the_market_screen() {
    let mut app = App::new();
    deposit(&mut app, "100000");
    form(&mut app, OrderType::Limit, "40000", "1", "5");
    press(&mut app, 's');
    assert_eq!(msg(&app), "Order submitted: Buy 1 @ 40000 with 5x leverage on BTC-PERP");
    assert!(app.user.positions.is_empty());
    app.current_screen = Screen::Market;
    key(&mut app, Key::Enter);
    assert_eq!(msg(&app), "Order cancelled");
    app.message = None;
    key(&mut app, Key::Enter);
    assert_eq!(app.message, None);
}

#[test]
fn timeframe_and_market_keys() {
    let mut app = App::new();
    press(&mut app, 't');
    assert_eq!(msg(&app), "Timeframe: 1h");
    press(&mut app, 'm');
    assert_eq!(msg(&app), "Market: ETH-PERP");
    assert_eq!(app.engine.current_market, "ETH-PERP");
}

#[test]
fn tick_moves_the_mark_and_counts() {
    let mut app = App::new();
    assert_eq!(app.on_tick(d("45100"), d("2")), Ok(()));
    assert_eq!(app.ticks, 1);
    let m = app.engine.current_market();
    assert_eq!(v(m.oracle.price()), Decimal::from(45100));
    assert_eq!(m.chart.candles().len(), 1);
}

#[test]
fn tick_applies_funding_once_a_minute_has_passed() {
    let mut app = App::new();
    app.last_funding_time -= 61;
    assert_eq!(app.on_tick(d("50000"), d("1")), Ok(()));
    assert_eq!(msg(&app), "Funding applied: 0.0000%");
    assert_eq!(v(app.engine.funding.rate), Decimal::ZERO);
    assert!(app.on_tick(d("50000"), d("1")).is_ok());
}

#[test]
fn saved_indices_and_names_read_back() {
    for i in 0..6 {
        let s = screen_from_index(i).unwrap();
        assert_eq!(terminal_perps::app::screen_to_index(s), i);
    }
    assert!(screen_from_index(6).is_none());
    assert_eq!(field_from_index(2), TradeField::Price);
    assert_eq!(field_from_index(9), TradeField::Leverage);
    assert_eq!(field_to_index(TradeField::Size), 3);
    assert_eq!(side_from_text(side_name(OrderSide::Sell)), OrderSide::Sell);
    assert_eq!(side_from_text("anything"), OrderSide::Sell);
    assert_eq!(side_from_text("Buy"), OrderSide::Buy);
    assert_eq!(order_type_from_text(order_type_name(OrderType::Market)), OrderType::Market);
    assert_eq!(order_type_from_text("Limit"), OrderType::Limit);
}

#[test]
fn a_deposit_beyond_the_decimal_range_is_an_overflow() {
    let mut app = App::new();
    deposit(&mut app, "79228162514264337593543950335");
    assert_eq!(v(app.user.balance), Decimal::MAX);
    app.current_screen = Screen::Account;
    press(&mut app, 'd');
    typed(&mut app, "1");
    assert_eq!(app.handle_input(Key::Enter, false), Err(Overflow::Arithmetic));
}

#[test]
fn funding_message_shows_the_rate_in_percent_to_four_places() {
    let mut app = App::new();
    app.last_funding_time -= 120;
    assert_eq!(app.on_tick(d("50100"), d("1")), Ok(()));
    let mark = Decimal::from(50100);
    let index = Decimal::from(50000) * Decimal::from_str("0.999").unwrap()
        + mark * Decimal::from_str("0.001").unwrap();
    let rate = (mark - index) / index * Decimal::from_str("0.1").unwrap();
    assert_eq!(v(app.engine.funding.rate), rate);
    assert_eq!(msg(&app), format!("Funding applied: {:.4}%", rate * Decimal::from(100)));
    assert_eq!(msg(&app), "Funding applied: 0.0199%");
}

#[test]
fn leverage_text_is_read_as_std_reads_a_u64() {
    let mut app = App::new();
    deposit(&mut app, "100000");
    form(&mut app, OrderType::Limit, "40000", "1", "+05");
    press(&mut app, 's');
    assert_eq!(msg(&app), "Order submitted: Buy 1 @ 40000 with 5x leverage on BTC-PERP");
    for bad in ["", "+", "-5", " 5", "5x", "21", "0", "99999999999999999999"] {
        form(&mut app, OrderType::Limit, "40000", "1", bad);
        press(&mut app, 's');
        assert_eq!(msg(&app), "Leverage must be 1-20x");
    }
}
