//! The application's state and what each key press and clock tick does to it.
//!
//! Screens, the trade form and the text being typed live here beside the
//! account and the exchange.  Where an amount would leave `Decimal`'s range
//! the handlers return `Err(Overflow)` instead of going on.
use vstd::prelude::*;
use crate::candles::{reframed, tick_ok, ticked};
use crate::clock::now_secs;
use crate::decimal::{
    Dec, add_ok, ddiff, decimal_parse, decimal_text, div_ok, dprod, dquot, dsum, mul_ok, sub_ok,
    dec_checked_add, dec_checked_div, dec_checked_mul, dec_checked_sub, dec_parse, dec_text,
    dec_text_4dp, decimal_text_4dp,
};
use crate::engine::{Engine, chart_only_changed, fresh_engine, whole};
use crate::funding::{FundingRate, apply_funding_ok, funding_fold, funding_rate_of, funding_rate_ok};
use crate::liquidator::{LiqState, booked_trace, fill_booked, liquidated_via, liquidation_fails};
use crate::oracle::{next_index, next_index_ok};
use crate::market::{Market, order_cancelled, order_matched, trade_recorded};
use crate::matcher::{FillEvent, match_ok, match_result, same_fills};
use crate::orderbook::{
    Level, Order, OrderBook, OrderSide, OrderType, first_index, has_id, lemma_first_index, level_has_id,
    level_with_id, opposite, orders_of_user, side_has_id, side_orders_of_user,
};
use crate::text::{
    contains_text, parse_u64, str_contains, string_clear, string_pop, string_push, u64_parse, u64_text,
    u64_to_text,
};
use crate::user::{UserAccount, apply_fill_ok};

verus! {

/// The screen shown.
#[derive(Clone, Copy, PartialEq, Eq, Debug, Structural)]
pub enum Screen {
    Market,
    Trade,
    Positions,
    Account,
    History,
    Help,
}

/// The field of the trade form that has the focus.
#[derive(Clone, Copy, PartialEq, Eq, Debug, Structural)]
pub enum TradeField {
    Side,
    Type,
    Price,
    Size,
    Leverage,
}

/// Whether keys navigate (`Normal`) or type into the input buffer
/// (`Editing`).
#[derive(Clone, Copy, PartialEq, Eq, Debug, Structural)]
pub enum InputMode {
    Normal,
    Editing,
}

/// A key press, as the application tells keys apart.
#[derive(Clone, Copy, PartialEq, Eq, Debug, Structural)]
pub enum Key {
    Char(char),
    Up,
    Down,
    Enter,
    Backspace,
    Esc,
    Other,
}

/// An amount left `Decimal`'s range, or the order identifiers ran out: the
/// arithmetic could not go on.
#[derive(Clone, Copy, PartialEq, Eq, Debug, Structural)]
pub enum Overflow {
    Arithmetic,
}

/// The trade form: side, type, and the texts typed for price, size and
/// leverage.
#[derive(Clone, Debug)]
pub struct TradeForm {
    pub side: OrderSide,
    pub order_type: OrderType,
    pub price: String,
    pub size: String,
    pub leverage: String,
    pub field: TradeField,
}

impl Default for TradeForm {
    /// A market buy, no price or size, leverage `5`, the side field focused.
    fn default() -> (r: TradeForm)
        ensures
            r.side == OrderSide::Buy,
            r.order_type == OrderType::Market,
            r.price@ == Seq::<char>::empty(),
            r.size@ == Seq::<char>::empty(),
            r.leverage@ == "5"@,
            r.field == TradeField::Side,
    {
        TradeForm {
            side: OrderSide::Buy,
            order_type: OrderType::Market,
            price: String::new(),
            size: String::new(),
            leverage: String::from_str("5"),
            field: TradeField::Side,
        }
    }
}

/// The number of a screen, in the order of the tabs: market 0, trade 1,
/// positions 2, account 3, history 4, help 5.
pub open spec fn screen_index(s: Screen) -> usize {
    match s {
        Screen::Market => 0,
        Screen::Trade => 1,
        Screen::Positions => 2,
        Screen::Account => 3,
        Screen::History => 4,
        Screen::Help => 5,
    }
}

/// The number of a screen (see `screen_index`).
pub fn screen_to_index(screen: Screen) -> (r: usize)
    ensures
        r == screen_index(screen),
{
    match screen {
        Screen::Market => 0,
        Screen::Trade => 1,
        Screen::Positions => 2,
        Screen::Account => 3,
        Screen::History => 4,
        Screen::Help => 5,
    }
}

/// The screen with number `i`, if there is one.
pub fn screen_from_index(i: usize) -> (r: Option<Screen>)
    ensures
        r is Some == (i < 6),
        r matches Some(s) ==> screen_index(s) == i,
{
    match i {
        0 => Some(Screen::Market),
        1 => Some(Screen::Trade),
        2 => Some(Screen::Positions),
        3 => Some(Screen::Account),
        4 => Some(Screen::History),
        5 => Some(Screen::Help),
        _ => None,
    }
}

/// The position of a field in the form: side 0, type 1, price 2, size 3,
/// leverage 4.
pub open spec fn field_index(f: TradeField) -> int {
    match f {
        TradeField::Side => 0,
        TradeField::Type => 1,
        TradeField::Price => 2,
        TradeField::Size => 3,
        TradeField::Leverage => 4,
    }
}

/// The field at position `i` of the form; leverage for any position past
/// size.
pub open spec fn field_at(i: int) -> TradeField {
    if i <= 0 {
        TradeField::Side
    } else if i == 1 {
        TradeField::Type
    } else if i == 2 {
        TradeField::Price
    } else if i == 3 {
        TradeField::Size
    } else {
        TradeField::Leverage
    }
}

/// The position of a field in the form (see `field_index`).
pub fn field_to_index(f: TradeField) -> (r: usize)
    ensures
        r == field_index(f),
{
    match f {
        TradeField::Side => 0,
        TradeField::Type => 1,
        TradeField::Price => 2,
        TradeField::Size => 3,
        TradeField::Leverage => 4,
    }
}

/// The field at position `i`: leverage for any position past size.
pub fn field_from_index(i: usize) -> (r: TradeField)
    ensures
        r == field_at(i as int),
{
    match i {
        0 => TradeField::Side,
        1 => TradeField::Type,
        2 => TradeField::Price,
        3 => TradeField::Size,
        _ => TradeField::Leverage,
    }
}

/// The side written as `"Buy"` reads as a buy; any other text as a sell.
pub fn side_from_text(s: &str) -> (r: OrderSide)
    ensures
        r == (if s@ == "Buy"@ {
            OrderSide::Buy
        } else {
            OrderSide::Sell
        }),
{
    if crate::text::str_eq(s, "Buy") {
        OrderSide::Buy
    } else {
        OrderSide::Sell
    }
}

/// A side as the saved state writes it: `"Buy"` or `"Sell"`, and nothing
/// else.
pub fn side_from_saved(s: &str) -> (r: Option<OrderSide>)
    ensures
        r == (if s@ == "Buy"@ {
            Some(OrderSide::Buy)
        } else if s@ == "Sell"@ {
            Some(OrderSide::Sell)
        } else {
            None
        }),
{
    if crate::text::str_eq(s, "Buy") {
        Some(OrderSide::Buy)
    } else if crate::text::str_eq(s, "Sell") {
        Some(OrderSide::Sell)
    } else {
        None
    }
}

/// The type written as `"Market"` reads as a market order; any other text as
/// a limit order.
pub fn order_type_from_text(s: &str) -> (r: OrderType)
    ensures
        r == (if s@ == "Market"@ {
            OrderType::Market
        } else {
            OrderType::Limit
        }),
{
    if crate::text::str_eq(s, "Market") {
        OrderType::Market
    } else {
        OrderType::Limit
    }
}

/// The name of a side as `Debug` writes it.
pub open spec fn side_text(s: OrderSide) -> Seq<char> {
    match s {
        OrderSide::Buy => "Buy"@,
        OrderSide::Sell => "Sell"@,
    }
}

/// The name of a side as `Debug` writes it.
pub fn side_name(s: OrderSide) -> (r: &'static str)
    ensures
        r@ == side_text(s),
{
    match s {
        OrderSide::Buy => "Buy",
        OrderSide::Sell => "Sell",
    }
}

/// The name of an order type as `Debug` writes it.
pub open spec fn order_type_text(t: OrderType) -> Seq<char> {
    match t {
        OrderType::Market => "Market"@,
        OrderType::Limit => "Limit"@,
    }
}

/// The name of an order type as `Debug` writes it.
pub fn order_type_name(t: OrderType) -> (r: &'static str)
    ensures
        r@ == order_type_text(t),
{
    match t {
        OrderType::Market => "Market",
        OrderType::Limit => "Limit",
    }
}

/// The form with the other side or the other order type, when the focused
/// field is the side or the type; unchanged otherwise.
pub open spec fn toggled(f: TradeForm) -> TradeForm {
    match f.field {
        TradeField::Side => TradeForm {
            side: match f.side {
                OrderSide::Buy => OrderSide::Sell,
                OrderSide::Sell => OrderSide::Buy,
            },
            ..f
        },
        TradeField::Type => TradeForm {
            order_type: match f.order_type {
                OrderType::Market => OrderType::Limit,
                OrderType::Limit => OrderType::Market,
            },
            ..f
        },
        _ => f,
    }
}

/// The form with the focus on field `g`.
pub open spec fn focused(f: TradeForm, g: TradeField) -> TradeForm {
    TradeForm { field: g, ..f }
}

/// The price a market order on `side` takes in book `b` when the mark is
/// `mark`: the best ask for a buy, the best bid for a sell, the mark when
/// that side of the book is empty.
pub open spec fn market_price(b: OrderBook, side: OrderSide, mark: Dec) -> Dec {
    match side {
        OrderSide::Buy => if b.ask_levels().len() == 0 {
            mark
        } else {
            b.ask_levels()[0].0
        },
        OrderSide::Sell => if b.bid_levels().len() == 0 {
            mark
        } else {
            b.bid_levels().last().0
        },
    }
}

/// The price of the order the form describes in market `m`: the market
/// price for a market order, the typed price for a limit order (`None` when
/// it does not parse).
pub open spec fn form_price(f: TradeForm, m: Market) -> Option<Dec> {
    match f.order_type {
        OrderType::Market => Some(market_price(m.orderbook, f.side, m.oracle.mark())),
        OrderType::Limit => decimal_parse(f.price@),
    }
}

/// The typed size, when it parses and is positive.
pub open spec fn form_size(f: TradeForm) -> Option<Dec> {
    match decimal_parse(f.size@) {
        Some(s) => if s.val() > 0 {
            Some(s)
        } else {
            None
        },
        None => None,
    }
}

/// The typed leverage, when it parses and is from 1 to 20.
pub open spec fn form_leverage(f: TradeForm) -> Option<u64> {
    match u64_parse(f.leverage@) {
        Some(l) => if 1 <= l <= 20 {
            Some(l)
        } else {
            None
        },
        None => None,
    }
}

/// The margin an order needs: its notional `size * price` over the leverage.
pub open spec fn margin_of(size: Dec, price: Dec, lev: u64) -> Dec {
    dquot(dprod(size, price), whole(lev as int))
}

/// `margin_of` does not overflow.
pub open spec fn margin_ok(size: Dec, price: Dec, lev: u64) -> bool {
    mul_ok(size, price) && div_ok(dprod(size, price), whole(lev as int))
}

/// The total size of the fills `fs` (`Decimal::ZERO` plus each in turn).
pub open spec fn size_total(fs: Seq<FillEvent>) -> Dec
    decreases fs.len(),
{
    if fs.len() == 0 {
        Dec { mantissa: 0, scale: 0 }
    } else {
        dsum(size_total(fs.drop_last()), fs.last().size)
    }
}

/// `size_total` does not overflow.
pub open spec fn size_total_ok(fs: Seq<FillEvent>) -> bool
    decreases fs.len(),
{
    if fs.len() == 0 {
        true
    } else {
        size_total_ok(fs.drop_last()) && add_ok(size_total(fs.drop_last()), fs.last().size)
    }
}

/// `ms` are the market in turn as the fills `fs` are added to its tape.
pub open spec fn trades_trace(ms: Seq<Market>, fs: Seq<FillEvent>) -> bool {
    &&& ms.len() == fs.len() + 1
    &&& forall|k: int|
        0 <= k < fs.len() ==> trade_recorded(
            #[trigger] ms[k],
            ms[k + 1],
            fs[k].price,
            fs[k].size,
            fs[k].side,
        )
}

/// The message refusing an order that needs more margin than is available.
pub open spec fn insufficient_text(margin: Dec, avail: Dec) -> Seq<char> {
    "Insufficient margin. Required: "@ + decimal_text(margin) + ", Available: "@ + decimal_text(
        avail,
    )
}

/// The message confirming an order.
pub open spec fn submitted_text(side: OrderSide, size: Dec, price: Dec, lev: u64, market: Seq<char>) -> Seq<char> {
    "Order submitted: "@ + side_text(side) + " "@ + decimal_text(size) + " @ "@ + decimal_text(price)
        + " with "@ + u64_text(lev) + "x leverage on "@ + market
}

/// `o` is the order the form of `a` places at `price`, of `size`, with
/// leverage `lev`: the trader's, the form's side and type, the next order
/// identifier.
pub open spec fn placed_order(o: Order, a: App, price: Dec, size: Dec, lev: u64) -> bool {
    &&& o.id == a.engine.order_ids.next
    &&& o.user@ == a.user.pubkey@
    &&& o.side == a.trade_form.side
    &&& o.order_type == a.trade_form.order_type
    &&& o.price == price
    &&& o.size == size
    &&& o.remaining == size
    &&& o.leverage == lev as u32
}

/// Placing the order gives `b` from `a`, by way of the order `o`, its fills
/// `fs`, the accounts `us` as they are booked and the market `ms` as its
/// tape grows: `o` is matched in the current market, each fill is booked to
/// the account at the mark and added to the tape, the chart records the
/// total size traded when it is positive, and the confirmation is shown.
pub open spec fn placed_via(
    a: App,
    b: App,
    price: Dec,
    size: Dec,
    lev: u64,
    o: Order,
    fs: Seq<FillEvent>,
    us: Seq<UserAccount>,
    ms: Seq<Market>,
) -> bool {
    let m = a.engine.current_spec();
    let mark = m.oracle.mark();
    let total = size_total(fs);
    let fin = b.engine.current_spec();
    &&& placed_order(o, a, price, size, lev)
    &&& match_ok(m.orderbook, o)
    &&& order_matched(m, ms[0], o, fs)
    &&& booked_trace(us, fs, mark)
    &&& us[0] == a.user
    &&& us.last() == b.user
    &&& trades_trace(ms, fs)
    &&& size_total_ok(fs)
    &&& if total.val() > 0 {
        &&& exists|now: i64| ticked(ms.last().chart, fin.chart, mark, total, now)
        &&& chart_only_changed(ms.last(), fin)
    } else {
        fin == ms.last()
    }
    &&& b.engine.markets@ == a.engine.markets@.update(a.engine.current(), fin)
    &&& b.engine.current_market == a.engine.current_market
    &&& b.engine.funding == a.engine.funding
    &&& b.engine.liquidator == a.engine.liquidator
    &&& b.engine.order_ids.next == a.engine.order_ids.next + 1
    &&& b.message matches Some(t) && t@ == submitted_text(
        a.trade_form.side,
        size,
        price,
        lev,
        a.engine.current_market@,
    )
    &&& b == (App { user: b.user, engine: b.engine, message: b.message, ..a })
}

/// Placing the order overflows, by way of the order `o`: matching it
/// overflows, or its fills `fs` have been booked up to the `k`-th (accounts
/// `us`) and booking the next one or adding its size to the total
/// overflows, or recording the total on the chart does.
pub open spec fn place_fails_via(
    a: App,
    price: Dec,
    size: Dec,
    lev: u64,
    o: Order,
    fs: Seq<FillEvent>,
    us: Seq<UserAccount>,
    k: int,
) -> bool {
    let m = a.engine.current_spec();
    let mark = m.oracle.mark();
    let mr = match_result(m.orderbook.side(opposite(o.side)), o);
    &&& placed_order(o, a, price, size, lev)
    &&& {
        ||| !mr.3
        ||| {
            &&& same_fills(fs, mr.1)
            &&& 0 <= k <= fs.len()
            &&& booked_trace(us, fs.take(k), mark)
            &&& us[0] == a.user
            &&& size_total_ok(fs.take(k))
            &&& if k < fs.len() {
                !(apply_fill_ok(us[k], fs[k], mark) && add_ok(size_total(fs.take(k)), fs[k].size))
            } else {
                size_total(fs).val() > 0 && exists|now: i64| !tick_ok(m.chart, size_total(fs), now)
            }
        }
    }
}

/// What `submit_trade` does to `a`, giving `b` and `r`: the form is read in
/// turn (price, size, leverage) and the first that is invalid is reported;
/// an order needing more margin than is available is refused; otherwise the
/// order is placed (`placed_via`), unless that overflows
/// (`place_fails_via`).
pub open spec fn submit_outcome(a: App, b: App, r: Result<(), Overflow>) -> bool {
    let m = a.engine.current_spec();
    let f = a.trade_form;
    if form_price(f, m) is None {
        r is Ok && only_message(a, b, "Invalid price"@)
    } else if form_size(f) is None {
        r is Ok && only_message(a, b, "Invalid size"@)
    } else if form_leverage(f) is None {
        r is Ok && only_message(a, b, "Leverage must be 1-20x"@)
    } else {
        let price = form_price(f, m)->Some_0;
        let size = form_size(f)->Some_0;
        let lev = form_leverage(f)->Some_0;
        let margin = margin_of(size, price, lev);
        if !margin_ok(size, price, lev) {
            r is Err
        } else if a.user.available_balance.val() < margin.val() {
            r is Ok && only_message(a, b, insufficient_text(margin, a.user.available_balance))
        } else {
            &&& r is Ok ==> exists|o: Order, fs: Seq<FillEvent>, us: Seq<UserAccount>, ms: Seq<Market>|
                #[trigger] placed_via(a, b, price, size, lev, o, fs, us, ms)
            &&& r is Err ==> a.engine.order_ids.next == u64::MAX || exists|
                o: Order,
                fs: Seq<FillEvent>,
                us: Seq<UserAccount>,
                k: int,
            | #[trigger] place_fails_via(a, price, size, lev, o, fs, us, k)
        }
    }
}

/// The form field takes typed text: the price, the size or the leverage.
pub open spec fn editable(f: TradeField) -> bool {
    f == TradeField::Price || f == TradeField::Size || f == TradeField::Leverage
}

/// The text of a typed field of the form (the price for the others).
pub open spec fn field_text(f: TradeForm, g: TradeField) -> String {
    match g {
        TradeField::Size => f.size,
        TradeField::Leverage => f.leverage,
        _ => f.price,
    }
}

/// The form with `s` as the text of its focused field, when that field is
/// typed; unchanged otherwise.
pub open spec fn typed(f: TradeForm, s: String) -> TradeForm {
    match f.field {
        TradeField::Price => TradeForm { price: s, ..f },
        TradeField::Size => TradeForm { size: s, ..f },
        TradeField::Leverage => TradeForm { leverage: s, ..f },
        _ => f,
    }
}

/// The message shown mentions `pat`.
pub open spec fn message_says(m: Option<String>, pat: Seq<char>) -> bool {
    m matches Some(t) && contains_text(t@, pat)
}

/// The orders of the trader resting in market `m`: bids, then asks, levels
/// in ascending order of price, oldest first within a level.
pub open spec fn own_orders(m: Market, user: Seq<char>) -> Seq<Order> {
    side_orders_of_user(m.orderbook.bid_levels(), user) + side_orders_of_user(
        m.orderbook.ask_levels(),
        user,
    )
}

/// What `cancel_selected_order` does to `a`, giving `b`: the trader's order
/// at the selected row of `own_orders`, if there is one, is cancelled in the
/// current market, and "Order cancelled" is shown when it was found.
pub open spec fn cancel_outcome(a: App, b: App) -> bool {
    let m = a.engine.current_spec();
    let os = own_orders(m, a.user.pubkey@);
    if a.selected_row < os.len() {
        let id = os[a.selected_row as int].id;
        let found = side_has_id(m.orderbook.bid_levels(), id) || side_has_id(
            m.orderbook.ask_levels(),
            id,
        );
        &&& order_cancelled(m, b.engine.current_spec(), id, found)
        &&& b.engine.markets@ == a.engine.markets@.update(a.engine.current(), b.engine.current_spec())
        &&& b.engine.current_market == a.engine.current_market
        &&& b.engine.funding == a.engine.funding
        &&& b.engine.liquidator == a.engine.liquidator
        &&& b.engine.order_ids == a.engine.order_ids
        &&& if found {
            b.message matches Some(t) && t@ == "Order cancelled"@
        } else {
            b.message == a.message
        }
        &&& b == (App { engine: b.engine, message: b.message, ..a })
    } else {
        b == a
    }
}

/// Each of a trader's orders in `orders` is one of `orders`.
proof fn lemma_user_order_is_held(orders: Seq<Order>, user: Seq<char>, k: int)
    requires
        0 <= k < orders_of_user(orders, user).len(),
    ensures
        exists|q: int| 0 <= q < orders.len() && #[trigger] orders[q] == orders_of_user(orders, user)[k],
    decreases orders.len(),
{
    let rest = orders.drop_last();
    let r = orders_of_user(rest, user);
    if k < r.len() {
        lemma_user_order_is_held(rest, user, k);
        let q = choose|q: int| 0 <= q < rest.len() && #[trigger] rest[q] == r[k];
        assert(orders[q] == rest[q]);
    } else {
        assert(orders[orders.len() - 1] == orders_of_user(orders, user)[k]);
    }
}

/// `pred` holds of an element of `s`, so `first_index` finds one.
proof fn lemma_found_where_held<A>(s: Seq<A>, pred: spec_fn(A) -> bool, k: int)
    requires
        0 <= k < s.len(),
        pred(s[k]),
    ensures
        first_index(s, pred) < s.len(),
{
    lemma_first_index(s, pred);
}

/// Each of a trader's orders on a side has its identifier held on that
/// side.
proof fn lemma_user_order_on_side(levels: Seq<Level>, user: Seq<char>, k: int)
    requires
        0 <= k < side_orders_of_user(levels, user).len(),
    ensures
        side_has_id(levels, side_orders_of_user(levels, user)[k].id),
    decreases levels.len(),
{
    let rest = levels.drop_last();
    let r = side_orders_of_user(rest, user);
    let o = side_orders_of_user(levels, user)[k];
    if k < r.len() {
        lemma_user_order_on_side(rest, user, k);
        assert(o == r[k]);
        let i = level_with_id(rest, o.id) as int;
        lemma_first_index(rest, level_has_id(o.id));
        assert(levels[i] == rest[i]);
        lemma_found_where_held(levels, level_has_id(o.id), i);
    } else {
        let last = levels[levels.len() - 1];
        assert(o == orders_of_user(last.1, user)[k - r.len()]);
        lemma_user_order_is_held(last.1, user, k - r.len());
        let q = choose|q: int| 0 <= q < last.1.len() && #[trigger] last.1[q] == orders_of_user(last.1, user)[k
            - r.len()];
        lemma_found_where_held(last.1, has_id(o.id), q);
        lemma_found_where_held(levels, level_has_id(o.id), levels.len() - 1);
    }
}

/// Enter on the market screen cancels the order shown at the selected row:
/// the `selected_row`-th of the trader's own resting orders in the current
/// market (its bids, then its asks, levels by ascending price, oldest first
/// within a level).  That order is always in the book, so it is taken out
/// and "Order cancelled" is shown; the rest of the application stays.  With
/// no order at that row nothing changes.
pub proof fn law_cancel_takes_the_selected_row(a: App, b: App)
    requires
        cancel_outcome(a, b),
    ensures
        ({
            let m = a.engine.current_spec();
            let bids = side_orders_of_user(m.orderbook.bid_levels(), a.user.pubkey@);
            let asks = side_orders_of_user(m.orderbook.ask_levels(), a.user.pubkey@);
            let row = a.selected_row as int;
            if row < bids.len() + asks.len() {
                let chosen = if row < bids.len() {
                    bids[row]
                } else {
                    asks[row - bids.len()]
                };
                &&& order_cancelled(m, b.engine.current_spec(), chosen.id, true)
                &&& b.message matches Some(t) && t@ == "Order cancelled"@
                &&& b.user == a.user
                &&& b.engine.current_market == a.engine.current_market
            } else {
                b == a
            }
        }),
{
    let m = a.engine.current_spec();
    let bl = m.orderbook.bid_levels();
    let al = m.orderbook.ask_levels();
    let bids = side_orders_of_user(bl, a.user.pubkey@);
    let asks = side_orders_of_user(al, a.user.pubkey@);
    let os = own_orders(m, a.user.pubkey@);
    let row = a.selected_row as int;
    if row < bids.len() + asks.len() {
        if row < bids.len() {
            assert(os[row] == bids[row]);
            lemma_user_order_on_side(bl, a.user.pubkey@, row);
        } else {
            assert(os[row] == asks[row - bids.len()]);
            lemma_user_order_on_side(al, a.user.pubkey@, row - bids.len());
        }
    }
}

/// What confirming the typed amount on the account screen does to `a`,
/// giving `b` and `r` (before the input mode and buffer are reset): a
/// deposit when the message asks for one, a withdrawal when it asks for
/// one (refused when the available balance does not cover it); nothing
/// when the text is not a decimal.
pub open spec fn amount_outcome(a: App, b: App, r: Result<(), Overflow>) -> bool {
    let u = a.user;
    match decimal_parse(a.input_buffer@) {
        None => r is Ok && b.user == u && b.message == a.message,
        Some(amount) => if message_says(a.message, "deposit"@) {
            if add_ok(u.balance, amount) && add_ok(u.available_balance, amount) {
                &&& r is Ok
                &&& b.user == (UserAccount {
                    balance: dsum(u.balance, amount),
                    available_balance: dsum(u.available_balance, amount),
                    ..u
                })
                &&& b.message matches Some(t) && t@ == "Deposited "@ + decimal_text(amount)
            } else {
                r is Err
            }
        } else if message_says(a.message, "withdraw"@) {
            if amount.val() <= u.available_balance.val() {
                if sub_ok(u.balance, amount) && sub_ok(u.available_balance, amount) {
                    &&& r is Ok
                    &&& b.user == (UserAccount {
                        balance: ddiff(u.balance, amount),
                        available_balance: ddiff(u.available_balance, amount),
                        ..u
                    })
                    &&& b.message matches Some(t) && t@ == "Withdrew "@ + decimal_text(amount)
                } else {
                    r is Err
                }
            } else {
                r is Ok && b.user == u && (b.message matches Some(t) && t@ == "Insufficient balance"@)
            }
        } else {
            r is Ok && b.user == u && b.message == a.message
        },
    }
}

/// What a key does to `a` while typing, giving `b` and `r`: Enter confirms
/// the text (an amount on the account screen, the focused field on the trade
/// screen) and stops typing; a character is added; Backspace removes the
/// last; Esc stops typing and drops the text.
pub open spec fn editing_outcome(a: App, b: App, key: Key, r: Result<(), Overflow>) -> bool {
    match key {
        Key::Enter => {
            &&& r is Ok ==> b.input_mode == InputMode::Normal && b.input_buffer@ == Seq::<
                char,
            >::empty()
            &&& if a.current_screen == Screen::Account {
                &&& amount_outcome(a, b, r)
                &&& r is Ok ==> b == (App {
                    user: b.user,
                    message: b.message,
                    input_mode: b.input_mode,
                    input_buffer: b.input_buffer,
                    ..a
                })
            } else {
                &&& r is Ok
                &&& b == (App {
                    trade_form: if a.current_screen == Screen::Trade {
                        typed(a.trade_form, a.input_buffer)
                    } else {
                        a.trade_form
                    },
                    input_mode: b.input_mode,
                    input_buffer: b.input_buffer,
                    ..a
                })
            }
        },
        Key::Char(c) => r is Ok && b == (App { input_buffer: b.input_buffer, ..a }) && b.input_buffer@
            == a.input_buffer@.push(c),
        Key::Backspace => r is Ok && b == (App { input_buffer: b.input_buffer, ..a }) && b.input_buffer@
            == (if a.input_buffer@.len() == 0 {
            a.input_buffer@
        } else {
            a.input_buffer@.drop_last()
        }),
        Key::Esc => r is Ok && b == (App {
            input_mode: InputMode::Normal,
            input_buffer: b.input_buffer,
            ..a
        }) && b.input_buffer@ == Seq::<char>::empty(),
        _ => r is Ok && b == a,
    }
}

/// `b` is `a` with the current market's chart switched to the next
/// timeframe and a message naming it.
pub open spec fn timeframe_switched(a: App, b: App) -> bool {
    let m = a.engine.current_spec();
    let n = b.engine.current_spec();
    let tf = m.chart.frame().spec_next();
    &&& reframed(m.chart, n.chart, tf)
    &&& chart_only_changed(m, n)
    &&& b.engine.markets@ == a.engine.markets@.update(a.engine.current(), n)
    &&& b.engine.current_market == a.engine.current_market
    &&& b.engine.funding == a.engine.funding
    &&& b.engine.liquidator == a.engine.liquidator
    &&& b.engine.order_ids == a.engine.order_ids
    &&& b.message matches Some(t) && t@ == "Timeframe: "@ + tf.label_text()
    &&& b == (App { engine: b.engine, message: b.message, ..a })
}

/// `b` is `a` trading the next market and a message naming it.
pub open spec fn market_switched(a: App, b: App) -> bool {
    let e = a.engine;
    let i = (e.current() + 1) % e.markets@.len() as int;
    &&& b.engine.current_market@ == e.markets@[i].symbol@
    &&& b.engine.current() == i
    &&& b.engine.markets == e.markets
    &&& b.engine.funding == e.funding
    &&& b.engine.liquidator == e.liquidator
    &&& b.engine.order_ids == e.order_ids
    &&& b.message matches Some(t) && t@ == "Market: "@ + e.markets@[i].symbol@
    &&& b == (App { engine: b.engine, message: b.message, ..a })
}

/// `b` is `a` typing an amount, with the prompt `prompt` shown.
pub open spec fn amount_prompted(a: App, b: App, prompt: Seq<char>) -> bool {
    &&& b.input_mode == InputMode::Editing
    &&& b.input_buffer@ == Seq::<char>::empty()
    &&& b.message matches Some(t) && t@ == prompt
    &&& b == (App {
        input_mode: b.input_mode,
        input_buffer: b.input_buffer,
        message: b.message,
        ..a
    })
}

/// The screen a digit key switches to: `1` market, `2` trade, `3`
/// positions, `4` account, `5` history.
pub open spec fn digit_screen(c: char) -> Option<Screen> {
    if c == '1' {
        Some(Screen::Market)
    } else if c == '2' {
        Some(Screen::Trade)
    } else if c == '3' {
        Some(Screen::Positions)
    } else if c == '4' {
        Some(Screen::Account)
    } else if c == '5' {
        Some(Screen::History)
    } else {
        None
    }
}

/// What a character key does to `a` while navigating, giving `b` and `r`.
pub open spec fn char_outcome(a: App, b: App, c: char, r: Result<(), Overflow>) -> bool {
    let trade = a.current_screen == Screen::Trade;
    let f = a.trade_form;
    if c == '?' {
        r is Ok && b == (App { current_screen: Screen::Help, ..a })
    } else if c == ' ' {
        r is Ok && if trade {
            only_form(a, b, toggled(f))
        } else {
            b == a
        }
    } else if c == 's' {
        if trade {
            submit_outcome(a, b, r)
        } else {
            r is Ok && b == a
        }
    } else if c == 't' {
        r is Ok && if a.current_screen == Screen::Market {
            timeframe_switched(a, b)
        } else {
            b == a
        }
    } else if c == 'm' {
        r is Ok && market_switched(a, b)
    } else if c == 'd' {
        r is Ok && if a.current_screen == Screen::Account {
            amount_prompted(a, b, "Enter amount to deposit:"@)
        } else {
            b == a
        }
    } else if c == 'w' {
        r is Ok && if a.current_screen == Screen::Account {
            amount_prompted(a, b, "Enter amount to withdraw:"@)
        } else {
            b == a
        }
    } else if trade && editable(f.field) && (('0' <= c && c <= '9') || c == '.') {
        &&& r is Ok
        &&& b == (App { input_mode: InputMode::Editing, input_buffer: b.input_buffer, ..a })
        &&& b.input_buffer@ == seq![c]
    } else {
        r is Ok && b == (match digit_screen(c) {
            Some(s) => App { current_screen: s, ..a },
            None => a,
        })
    }
}

/// What a key does to `a` while navigating, giving `b` and `r`.
pub open spec fn normal_outcome(a: App, b: App, key: Key, r: Result<(), Overflow>) -> bool {
    let trade = a.current_screen == Screen::Trade;
    let f = a.trade_form;
    match key {
        Key::Up => r is Ok && if trade {
            only_form(a, b, focused(f, field_at((field_index(f.field) - 1) % 5)))
        } else {
            b == (App {
                selected_row: if a.selected_row == 0 {
                    0
                } else {
                    (a.selected_row - 1) as usize
                },
                ..a
            })
        },
        Key::Down => r is Ok && if trade {
            only_form(a, b, focused(f, field_at((field_index(f.field) + 1) % 5)))
        } else {
            b == (App {
                selected_row: if a.selected_row == usize::MAX {
                    usize::MAX
                } else {
                    (a.selected_row + 1) as usize
                },
                ..a
            })
        },
        Key::Enter => if trade {
            r is Ok && if editable(f.field) {
                b == (App {
                    input_mode: InputMode::Editing,
                    input_buffer: field_text(f, f.field),
                    ..a
                })
            } else {
                only_form(a, b, toggled(f))
            }
        } else if a.current_screen == Screen::Market {
            r is Ok && cancel_outcome(a, b)
        } else {
            r is Ok && b == a
        },
        Key::Char(c) => char_outcome(a, b, c, r),
        _ => r is Ok && b == a,
    }
}

/// What a key does to `a`, giving `b` and `r`: Ctrl+C, or `q` while
/// navigating, asks to quit (`Ok(true)`) and changes nothing; any other key
/// is handled as navigation or typing, and does not quit.
pub open spec fn input_outcome(a: App, b: App, key: Key, control: bool, r: Result<bool, Overflow>) -> bool {
    if (control && key == Key::Char('c')) || (key == Key::Char('q') && a.input_mode
        == InputMode::Normal) {
        r == Ok::<bool, Overflow>(true) && b == a
    } else {
        let r2: Result<(), Overflow> = match r {
            Ok(_) => Ok(()),
            Err(e) => Err(e),
        };
        &&& r is Ok ==> r == Ok::<bool, Overflow>(false)
        &&& if a.input_mode == InputMode::Normal {
            normal_outcome(a, b, key, r2)
        } else {
            editing_outcome(a, b, key, r2)
        }
    }
}

/// The first stage of a tick, taking exchange `e` to `e1`: the current
/// market takes `price` as its mark price (its index moving a thousandth of
/// the way to it) and its chart records a trade at `price` of `volume`.
pub open spec fn price_stage(e: Engine, e1: Engine, price: Dec, volume: Dec) -> bool {
    let m = e.current_spec();
    let n = e1.current_spec();
    &&& next_index_ok(m.oracle.index(), price)
    &&& n.oracle.mark() == price
    &&& n.oracle.index() == next_index(m.oracle.index(), price)
    &&& exists|t: i64| ticked(m.chart, n.chart, price, volume, t)
    &&& n.symbol == m.symbol
    &&& n.orderbook == m.orderbook
    &&& n.recent_trades == m.recent_trades
    &&& e1.markets@ == e.markets@.update(e.current(), n)
    &&& e1.current() == e.current()
    &&& e1.current_market == e.current_market
    &&& e1.funding == e.funding
    &&& e1.liquidator == e.liquidator
    &&& e1.order_ids == e.order_ids
}

/// The first stage of a tick overflows: the new index, or the volume of the
/// candle in progress (at some time).
pub open spec fn price_stage_fails(e: Engine, price: Dec, volume: Dec) -> bool {
    let m = e.current_spec();
    ||| !next_index_ok(m.oracle.index(), price)
    ||| exists|t: i64| !tick_ok(m.chart, volume, t)
}

/// The message reporting funding at rate `f`, as a percentage to four
/// places.
pub open spec fn funding_text(f: Dec) -> Seq<char> {
    "Funding applied: "@ + decimal_text_4dp(dprod(f, whole(100))) + "%"@
}

/// `v` is account `u` after funding at rate `f` with mark `mark`
/// (`funding_fold`).
pub open spec fn funded(u: UserAccount, v: UserAccount, f: Dec, mark: Dec) -> bool {
    let r = funding_fold(u.positions@, f, mark, u.balance, u.available_balance);
    &&& v.positions@ == r.0
    &&& v.balance == r.1
    &&& v.available_balance == r.2
    &&& v.pubkey == u.pubkey
    &&& v.order_history == u.order_history
    &&& v.fill_history == u.fill_history
}

/// The funding stage of a tick at time `t`: when a minute or more has passed
/// since `last`, the rate for the current market's mark and index is set,
/// the account pays or receives it, `t` becomes the last funding time and
/// the rate is shown; otherwise nothing changes.
pub open spec fn funding_stage(
    u: UserAccount,
    e: Engine,
    last: i64,
    msg: Option<String>,
    t: i64,
    u2: UserAccount,
    e2: Engine,
    last2: i64,
    msg2: Option<String>,
) -> bool {
    let n = e.current_spec();
    let mark = n.oracle.mark();
    let index = n.oracle.index();
    let f = funding_rate_of(mark, index);
    if t - last >= 60 {
        &&& funding_rate_ok(mark, index)
        &&& apply_funding_ok(u, f, mark)
        &&& funded(u, u2, f, mark)
        &&& e2 == (Engine { funding: FundingRate { rate: f }, ..e })
        &&& last2 == t
        &&& mul_ok(f, whole(100))
        &&& msg2 matches Some(s) && s@ == funding_text(f)
    } else {
        u2 == u && e2 == e && last2 == last && msg2 == msg
    }
}

/// The funding stage of a tick at time `t` overflows.
pub open spec fn funding_stage_fails(u: UserAccount, e: Engine, last: i64, t: i64) -> bool {
    let n = e.current_spec();
    let mark = n.oracle.mark();
    let index = n.oracle.index();
    let f = funding_rate_of(mark, index);
    &&& t - last >= 60
    &&& !funding_rate_ok(mark, index) || !apply_funding_ok(u, f, mark) || !mul_ok(f, whole(100))
}

/// The liquidation stage of a tick, taking account `u` and exchange `e` to
/// `v` and `e3`: a liquidation pass against the current market's book at its
/// mark price.
pub open spec fn liquidation_stage(u: UserAccount, e: Engine, v: UserAccount, e3: Engine) -> bool {
    let m = e.current_spec();
    let n = e3.current_spec();
    &&& e.order_ids.next + u.positions@.len() < u64::MAX
    &&& exists|u1: UserAccount, tr: Seq<LiqState>|
        #[trigger] liquidated_via(
            u,
            m.orderbook,
            e.order_ids.next,
            m.oracle.mark(),
            e.liquidator.maintenance_margin,
            v,
            n.orderbook,
            e3.order_ids.next,
            u1,
            tr,
        )
    &&& n == (Market { orderbook: n.orderbook, ..m })
    &&& e3.markets@ == e.markets@.update(e.current(), n)
    &&& e3.current() == e.current()
    &&& e3.current_market == e.current_market
    &&& e3.funding == e.funding
    &&& e3.liquidator == e.liquidator
}

/// The liquidation stage of a tick overflows, or the order identifiers
/// could run out during it.
pub open spec fn liquidation_stage_fails(u: UserAccount, e: Engine) -> bool {
    let m = e.current_spec();
    ||| e.order_ids.next + u.positions@.len() >= u64::MAX
    ||| liquidation_fails(
        u,
        m.orderbook,
        e.order_ids.next,
        m.oracle.mark(),
        e.liquidator.maintenance_margin,
    )
}

/// A tick takes `a` to `b`, by way of the exchange `e1` after the price
/// stage, the account `u2`, exchange `e2`, last funding time `last2` and
/// message `msg2` after the funding stage (at time `t`): the price stage,
/// the funding stage and the liquidation stage in turn, and one more tick
/// counted.
pub open spec fn tick_via(
    a: App,
    b: App,
    price: Dec,
    volume: Dec,
    e1: Engine,
    u2: UserAccount,
    e2: Engine,
    last2: i64,
    msg2: Option<String>,
    t: i64,
) -> bool {
    &&& price_stage(a.engine, e1, price, volume)
    &&& funding_stage(a.user, e1, a.last_funding_time, a.message, t, u2, e2, last2, msg2)
    &&& liquidation_stage(u2, e2, b.user, b.engine)
    &&& b == (App {
        user: b.user,
        engine: b.engine,
        last_funding_time: last2,
        message: msg2,
        ticks: (a.ticks + 1) as u64,
        ..a
    })
}

/// A tick from `a` overflows in one of its stages (by way of the same
/// intermediate states as `tick_via`).
pub open spec fn tick_fails_via(
    a: App,
    price: Dec,
    volume: Dec,
    e1: Engine,
    u2: UserAccount,
    e2: Engine,
    last2: i64,
    msg2: Option<String>,
    t: i64,
) -> bool {
    ||| price_stage_fails(a.engine, price, volume)
    ||| price_stage(a.engine, e1, price, volume) && funding_stage_fails(
        a.user,
        e1,
        a.last_funding_time,
        t,
    )
    ||| price_stage(a.engine, e1, price, volume) && funding_stage(
        a.user,
        e1,
        a.last_funding_time,
        a.message,
        t,
        u2,
        e2,
        last2,
        msg2,
    ) && liquidation_stage_fails(u2, e2)
}

/// The application: the screen shown, the trader's account, the exchange,
/// the row selected in lists, the text being typed, the trade form, the
/// message shown, when funding was last applied (seconds since the Unix
/// epoch), and how many ticks have passed.
pub struct App {
    pub current_screen: Screen,
    pub user: UserAccount,
    pub engine: Engine,
    pub selected_row: usize,
    pub input_buffer: String,
    pub input_mode: InputMode,
    pub trade_form: TradeForm,
    pub message: Option<String>,
    pub last_funding_time: i64,
    pub ticks: u64,
}

/// `b` is `a` with a different trade form and nothing else changed.
pub open spec fn only_form(a: App, b: App, f: TradeForm) -> bool {
    b == (App { trade_form: f, ..a })
}

/// `b` is `a` showing message `m` and nothing else changed.
pub open spec fn only_message(a: App, b: App, m: Seq<char>) -> bool {
    &&& b.message matches Some(t) && t@ == m
    &&& b == (App { message: b.message, ..a })
}

impl App {
    /// A valid account and exchange.
    pub open spec fn wf(self) -> bool {
        self.user.wf() && self.engine.wf()
    }

    /// The application as it starts: the market screen, a new account, a
    /// new exchange, nothing typed, the default trade form, a welcome
    /// message, funding last applied now, no ticks yet.  (The markets' price
    /// history is loaded afterwards.)
    pub fn new() -> (r: App)
        ensures
            r.wf(),
            r.current_screen == Screen::Market,
            r.user.balance == (Dec { mantissa: 0, scale: 0 }),
            r.user.available_balance == (Dec { mantissa: 0, scale: 0 }),
            r.user.positions@.len() == 0,
            r.user.order_history@.len() == 0,
            r.user.fill_history@.len() == 0,
            fresh_engine(r.engine),
            r.selected_row == 0,
            r.input_buffer@ == Seq::<char>::empty(),
            r.input_mode == InputMode::Normal,
            r.trade_form.side == OrderSide::Buy,
            r.trade_form.order_type == OrderType::Market,
            r.trade_form.price@ == Seq::<char>::empty(),
            r.trade_form.size@ == Seq::<char>::empty(),
            r.trade_form.leverage@ == "5"@,
            r.trade_form.field == TradeField::Side,
            r.message matches Some(m) && m@ == "Welcome to Terminal Perps! Press '?' for help."@,
            r.ticks == 0,
    {
        let engine = Engine::new();
        App {
            current_screen: Screen::Market,
            user: UserAccount::new(),
            engine,
            selected_row: 0,
            input_buffer: String::new(),
            input_mode: InputMode::Normal,
            trade_form: TradeForm::default(),
            message: Some(String::from_str("Welcome to Terminal Perps! Press '?' for help.")),
            last_funding_time: now_secs(),
            ticks: 0,
        }
    }

    /// Moves the focus of the trade form `delta` fields on, wrapping around
    /// (`(position + delta) mod 5`).
    pub fn cycle_trade_field(&mut self, delta: i8)
        requires
            field_index(old(self).trade_form.field) + delta <= 127,
        ensures
            only_form(
                *old(self),
                *final(self),
                focused(
                    old(self).trade_form,
                    field_at((field_index(old(self).trade_form.field) + delta) % 5),
                ),
            ),
    {
        let current = field_to_index(self.trade_form.field);
        let shifted: i16 = current as i16 + delta as i16 + 130;
        let next = (shifted as u16 % 5) as usize;
        proof {
            let x = field_index(old(self).trade_form.field) + delta;
            assert((x + 130) % 5 == x % 5) by {
                vstd::arithmetic::div_mod::lemma_mod_multiples_vanish(26, x, 5);
            }
        }
        self.trade_form.field = field_from_index(next);
    }

    /// Places the order the trade form describes in the current market
    /// (see `submit_outcome`).
    #[verifier::loop_isolation(false)]
    pub fn submit_trade(&mut self) -> (r: Result<(), Overflow>)
        requires
            old(self).wf(),
        ensures
            final(self).wf(),
            submit_outcome(*old(self), *final(self), r),
    {
        let ghost a = *self;
        let market = self.engine.current_market();
        let price = if self.trade_form.order_type == OrderType::Market {
            match self.trade_form.side {
                OrderSide::Buy => match market.orderbook.best_ask() {
                    Some(p) => p,
                    None => market.oracle.price(),
                },
                OrderSide::Sell => match market.orderbook.best_bid() {
                    Some(p) => p,
                    None => market.oracle.price(),
                },
            }
        } else {
            match dec_parse(self.trade_form.price.as_str()) {
                Some(p) => p,
                None => {
                    self.message = Some(String::from_str("Invalid price"));
                    return Ok(());
                },
            }
        };
        proof {
            assert(market.wf());
        }
        let size = match dec_parse(self.trade_form.size.as_str()) {
            Some(s) => {
                if s.is_positive() {
                    s
                } else {
                    self.message = Some(String::from_str("Invalid size"));
                    return Ok(());
                }
            },
            None => {
                self.message = Some(String::from_str("Invalid size"));
                return Ok(());
            },
        };
        let leverage = match parse_u64(self.trade_form.leverage.as_str()) {
            Some(l) => {
                if 1 <= l && l <= 20 {
                    l
                } else {
                    self.message = Some(String::from_str("Leverage must be 1-20x"));
                    return Ok(());
                }
            },
            None => {
                self.message = Some(String::from_str("Leverage must be 1-20x"));
                return Ok(());
            },
        };
        let notional = match dec_checked_mul(size, price) {
            Some(x) => x,
            None => return Err(Overflow::Arithmetic),
        };
        let margin_required = match dec_checked_div(notional, Dec::from_u64(leverage)) {
            Some(x) => x,
            None => return Err(Overflow::Arithmetic),
        };
        if self.user.available_balance.lt(&margin_required) {
            let mut text = String::from_str("Insufficient margin. Required: ");
            let t1 = dec_text(margin_required);
            text.append(t1.as_str());
            text.append(", Available: ");
            let t2 = dec_text(self.user.available_balance);
            text.append(t2.as_str());
            self.message = Some(text);
            return Ok(());
        }
        if self.engine.order_ids.next == u64::MAX {
            return Err(Overflow::Arithmetic);
        }
        let order = Order::new(
            &mut self.engine.order_ids,
            self.user.pubkey.clone(),
            self.trade_form.side,
            self.trade_form.order_type,
            price,
            size,
            leverage as u32,
        );
        let ghost o = order;
        let ghost e0 = self.engine;
        let ghost cur = a.engine.current();
        let ghost m = a.engine.current_spec();
        let ghost mark = m.oracle.mark();
        proof {
            assert(e0.current_spec() == m);
            assert(placed_order(o, a, price, size, leverage));
        }
        let fills = match self.engine.try_submit_order(order) {
            Some(f) => f,
            None => {
                proof {
                    assert(place_fails_via(a, price, size, leverage, o, seq![], seq![a.user], 0));
                }
                return Err(Overflow::Arithmetic);
            },
        };
        let ghost m1 = self.engine.current_spec();
        let ghost mut us: Seq<UserAccount> = seq![a.user];
        let ghost mut ms: Seq<Market> = seq![m1];
        let mut total = Dec::zero();
        let mut k: usize = 0;
        while k < fills.len()
            invariant
                0 <= k <= fills@.len(),
                self.wf(),
                us.len() == k + 1,
                us[0] == a.user,
                us.last() == self.user,
                booked_trace(us, fills@.take(k as int), mark),
                ms.len() == k + 1,
                ms[0] == m1,
                ms.last() == self.engine.current_spec(),
                trades_trace(ms, fills@.take(k as int)),
                self.engine.current() == cur,
                self.engine.markets@ == a.engine.markets@.update(cur, ms.last()),
                self.engine.current_market == a.engine.current_market,
                self.engine.funding == a.engine.funding,
                self.engine.liquidator == a.engine.liquidator,
                self.engine.order_ids.next == a.engine.order_ids.next + 1,
                self.engine.current_spec().oracle.mark() == mark,
                self.engine.current_spec().chart == m.chart,
                total == size_total(fills@.take(k as int)),
                size_total_ok(fills@.take(k as int)),
                total.wf(),
                *self == (App { user: self.user, engine: self.engine, ..a }),
            decreases fills@.len() - k,
        {
            proof {
                assert(fills@[k as int].price.wf());
                assert(fills@.take(k as int + 1).drop_last() =~= fills@.take(k as int));
                assert(fills@.take(k as int + 1).last() == fills@[k as int]);
            }
            let mk = self.engine.current_market().oracle.price();
            let ok = self.user.try_apply_fill(&fills[k], mk);
            if !ok {
                proof {
                    assert(place_fails_via(a, price, size, leverage, o, fills@, us, k as int));
                }
                return Err(Overflow::Arithmetic);
            }
            let ghost e1 = self.engine;
            self.engine.add_recent_trade(fills[k].price, fills[k].size, fills[k].side);
            total = match dec_checked_add(total, fills[k].size) {
                Some(x) => x,
                None => {
                    proof {
                        assert(place_fails_via(a, price, size, leverage, o, fills@, us, k as int));
                    }
                    return Err(Overflow::Arithmetic);
                },
            };
            proof {
                let us2 = us.push(self.user);
                let ms2 = ms.push(self.engine.current_spec());
                let fs2 = fills@.take(k as int + 1);
                assert forall|q: int| 0 <= q < fs2.len() implies fill_booked(
                    #[trigger] us2[q],
                    us2[q + 1],
                    fs2[q],
                    mark,
                ) by {
                    if q < k {
                        assert(fills@.take(k as int)[q] == fs2[q]);
                        assert(us[q] == us2[q]);
                        assert(us[q + 1] == us2[q + 1]);
                    }
                }
                assert forall|q: int| 0 <= q < fs2.len() implies trade_recorded(
                    #[trigger] ms2[q],
                    ms2[q + 1],
                    fs2[q].price,
                    fs2[q].size,
                    fs2[q].side,
                ) by {
                    if q < k {
                        assert(fills@.take(k as int)[q] == fs2[q]);
                        assert(ms[q] == ms2[q]);
                        assert(ms[q + 1] == ms2[q + 1]);
                    } else {
                        assert(ms2[q] == e1.current_spec());
                    }
                }
                assert(self.engine.markets@ =~= a.engine.markets@.update(cur, ms2.last()));
                us = us2;
                ms = ms2;
            }
            k = k + 1;
        }
        proof {
            assert(fills@.take(k as int) =~= fills@);
        }
        if total.is_positive() {
            let mk = self.engine.current_market().oracle.price();
            let ghost e2 = self.engine;
            let ticked_ok = self.engine.try_tick_chart(mk, total);
            if !ticked_ok {
                proof {
                    assert(place_fails_via(a, price, size, leverage, o, fills@, us, k as int));
                }
                return Err(Overflow::Arithmetic);
            }
            proof {
                assert(self.engine.markets@ =~= a.engine.markets@.update(cur, self.engine.current_spec()));
            }
        }
        let mut text = String::from_str("Order submitted: ");
        text.append(side_name(self.trade_form.side));
        text.append(" ");
        let t1 = dec_text(size);
        text.append(t1.as_str());
        text.append(" @ ");
        let t2 = dec_text(price);
        text.append(t2.as_str());
        text.append(" with ");
        let t3 = u64_to_text(leverage);
        text.append(t3.as_str());
        text.append("x leverage on ");
        text.append(self.engine.current_market.as_str());
        self.message = Some(text);
        proof {
            assert(placed_via(a, *self, price, size, leverage, o, fills@, us, ms));
        }
        Ok(())
    }

    /// One clock tick, the current market's simulated trade being at
    /// `new_price` for `volume`: the price stage, the funding stage and the
    /// liquidation stage in turn (see `tick_via`); `Err` when one of them
    /// overflows (see `tick_fails_via`), the state then being left part way.
    pub fn on_tick(&mut self, new_price: Dec, volume: Dec) -> (r: Result<(), Overflow>)
        requires
            old(self).wf(),
            new_price.wf(),
            volume.wf(),
            old(self).ticks < u64::MAX,
        ensures
            final(self).wf(),
            r is Ok ==> exists|
                e1: Engine,
                u2: UserAccount,
                e2: Engine,
                last2: i64,
                msg2: Option<String>,
                t: i64,
            | #[trigger] tick_via(*old(self), *final(self), new_price, volume, e1, u2, e2, last2, msg2, t),
            r is Err ==> exists|
                e1: Engine,
                u2: UserAccount,
                e2: Engine,
                last2: i64,
                msg2: Option<String>,
                t: i64,
            | #[trigger] tick_fails_via(*old(self), new_price, volume, e1, u2, e2, last2, msg2, t),
    {
        let ghost a = *self;
        self.ticks = self.ticks + 1;
        let ghost e0 = self.engine;
        let market = self.engine.current_market_mut();
        let ghost c0 = market.chart;
        let priced = market.oracle.try_set_price(new_price);
        let charted = if priced {
            market.chart.try_tick(new_price, volume)
        } else {
            false
        };
        let ghost c1 = market.chart;
        proof {
            crate::engine::lemma_replace_market(e0.markets@, e0.current(), self.engine.markets@[e0.current()]);
        }
        if !priced || !charted {
            proof {
                if priced {
                    let t = choose|t: i64| !tick_ok(c0, volume, t);
                    assert(!tick_ok(e0.current_spec().chart, volume, t));
                }
                assert(tick_fails_via(a, new_price, volume, e0, a.user, e0, 0, None, 0));
            }
            return Err(Overflow::Arithmetic);
        }
        let ghost e1 = self.engine;
        proof {
            let t = choose|t: i64| ticked(c0, c1, new_price, volume, t);
            assert(ticked(e0.current_spec().chart, e1.current_spec().chart, new_price, volume, t));
            assert(price_stage(a.engine, e1, new_price, volume));
        }
        let t = now_secs();
        let elapsed: i128 = t as i128 - self.last_funding_time as i128;
        if elapsed >= 60 {
            let mark = self.engine.current_market().oracle.price();
            let index = self.engine.current_market().oracle.index_price();
            let funding = match self.engine.funding.try_calculate_funding(mark, index) {
                Some(f) => f,
                None => {
                    proof {
                        assert(tick_fails_via(a, new_price, volume, e1, a.user, e1, 0, None, t));
                    }
                    return Err(Overflow::Arithmetic);
                },
            };
            let mark2 = self.engine.current_market().oracle.price();
            if !self.engine.funding.try_apply_funding(&mut self.user, funding, mark2) {
                proof {
                    assert(tick_fails_via(a, new_price, volume, e1, a.user, e1, 0, None, t));
                }
                return Err(Overflow::Arithmetic);
            }
            self.last_funding_time = t;
            let pct = match dec_checked_mul(funding, Dec::from_u64(100)) {
                Some(x) => x,
                None => {
                    proof {
                        assert(tick_fails_via(a, new_price, volume, e1, a.user, e1, 0, None, t));
                    }
                    return Err(Overflow::Arithmetic);
                },
            };
            let mut text = String::from_str("Funding applied: ");
            let pt = dec_text_4dp(pct);
            text.append(pt.as_str());
            text.append("%");
            self.message = Some(text);
        }
        let ghost u2 = self.user;
        let ghost e2 = self.engine;
        let ghost last2 = self.last_funding_time;
        let ghost msg2 = self.message;
        proof {
            assert(funding_stage(a.user, e1, a.last_funding_time, a.message, t, u2, e2, last2, msg2));
        }
        let room = u64::MAX - self.engine.order_ids.next;
        if self.user.positions.len() as u64 >= room {
            proof {
                assert(tick_fails_via(a, new_price, volume, e1, u2, e2, last2, msg2, t));
            }
            return Err(Overflow::Arithmetic);
        }
        if !self.engine.run_liquidations(&mut self.user) {
            proof {
                assert(tick_fails_via(a, new_price, volume, e1, u2, e2, last2, msg2, t));
            }
            return Err(Overflow::Arithmetic);
        }
        proof {
            assert(liquidation_stage(u2, e2, self.user, self.engine));
            assert(tick_via(a, *self, new_price, volume, e1, u2, e2, last2, msg2, t));
        }
        Ok(())
    }

    /// Handles a key: see `input_outcome`.  `control` tells whether Control,
    /// and no other modifier, was held.
    pub fn handle_input(&mut self, key: Key, control: bool) -> (r: Result<bool, Overflow>)
        requires
            old(self).wf(),
        ensures
            final(self).wf(),
            input_outcome(*old(self), *final(self), key, control, r),
    {
        if control && key == Key::Char('c') {
            return Ok(true);
        }
        if key == Key::Char('q') && self.input_mode == InputMode::Normal {
            return Ok(true);
        }
        let r = match self.input_mode {
            InputMode::Normal => self.handle_normal_input(key),
            InputMode::Editing => self.handle_editing_input(key),
        };
        match r {
            Ok(()) => Ok(false),
            Err(e) => Err(e),
        }
    }

    /// Handles a key while navigating: see `normal_outcome`.
    pub fn handle_normal_input(&mut self, key: Key) -> (r: Result<(), Overflow>)
        requires
            old(self).wf(),
        ensures
            final(self).wf(),
            normal_outcome(*old(self), *final(self), key, r),
    {
        let ghost a = *self;
        match key {
            Key::Up => {
                if self.current_screen == Screen::Trade {
                    self.cycle_trade_field(-1);
                } else {
                    self.selected_row = self.selected_row.saturating_sub(1);
                }
                Ok(())
            },
            Key::Down => {
                if self.current_screen == Screen::Trade {
                    self.cycle_trade_field(1);
                } else {
                    self.selected_row = self.selected_row.saturating_add(1);
                }
                Ok(())
            },
            Key::Enter => {
                match self.current_screen {
                    Screen::Trade => {
                        match self.trade_form.field {
                            TradeField::Price => {
                                self.input_mode = InputMode::Editing;
                                self.input_buffer = self.trade_form.price.clone();
                            },
                            TradeField::Size => {
                                self.input_mode = InputMode::Editing;
                                self.input_buffer = self.trade_form.size.clone();
                            },
                            TradeField::Leverage => {
                                self.input_mode = InputMode::Editing;
                                self.input_buffer = self.trade_form.leverage.clone();
                            },
                            _ => self.toggle_trade_field(),
                        }
                    },
                    Screen::Market => self.cancel_selected_order(),
                    _ => {},
                }
                Ok(())
            },
            Key::Char(c) => self.handle_char(c),
            _ => Ok(()),
        }
    }

    /// Handles a character key while navigating: see `char_outcome`.
    fn handle_char(&mut self, c: char) -> (r: Result<(), Overflow>)
        requires
            old(self).wf(),
        ensures
            final(self).wf(),
            char_outcome(*old(self), *final(self), c, r),
    {
        let ghost a = *self;
        if c == '?' {
            self.current_screen = Screen::Help;
            return Ok(());
        }
        if c == ' ' {
            if self.current_screen == Screen::Trade {
                self.toggle_trade_field();
            }
            return Ok(());
        }
        if c == 's' {
            if self.current_screen == Screen::Trade {
                return self.submit_trade();
            }
            return Ok(());
        }
        if c == 't' {
            if self.current_screen == Screen::Market {
                let next = self.engine.current_market().chart.timeframe().next();
                let ghost e0 = self.engine;
                let market = self.engine.current_market_mut();
                market.chart.set_timeframe(next);
                proof {
                    crate::engine::lemma_replace_market(
                        e0.markets@,
                        e0.current(),
                        self.engine.markets@[e0.current()],
                    );
                }
                let mut text = String::from_str("Timeframe: ");
                text.append(next.label());
                self.message = Some(text);
            }
            return Ok(());
        }
        if c == 'm' {
            self.engine.next_market();
            let mut text = String::from_str("Market: ");
            text.append(self.engine.current_market.as_str());
            self.message = Some(text);
            return Ok(());
        }
        if c == 'd' {
            if self.current_screen == Screen::Account {
                self.input_mode = InputMode::Editing;
                string_clear(&mut self.input_buffer);
                self.message = Some(String::from_str("Enter amount to deposit:"));
            }
            return Ok(());
        }
        if c == 'w' {
            if self.current_screen == Screen::Account {
                self.input_mode = InputMode::Editing;
                string_clear(&mut self.input_buffer);
                self.message = Some(String::from_str("Enter amount to withdraw:"));
            }
            return Ok(());
        }
        if self.current_screen == Screen::Trade {
            match self.trade_form.field {
                TradeField::Price | TradeField::Size | TradeField::Leverage => {
                    if ('0' <= c && c <= '9') || c == '.' {
                        self.input_mode = InputMode::Editing;
                        string_clear(&mut self.input_buffer);
                        string_push(&mut self.input_buffer, c);
                        return Ok(());
                    }
                },
                _ => {},
            }
        }
        if c == '1' {
            self.current_screen = Screen::Market;
        } else if c == '2' {
            self.current_screen = Screen::Trade;
        } else if c == '3' {
            self.current_screen = Screen::Positions;
        } else if c == '4' {
            self.current_screen = Screen::Account;
        } else if c == '5' {
            self.current_screen = Screen::History;
        }
        Ok(())
    }

    /// Handles a key while typing: see `editing_outcome`.
    pub fn handle_editing_input(&mut self, key: Key) -> (r: Result<(), Overflow>)
        requires
            old(self).wf(),
        ensures
            final(self).wf(),
            editing_outcome(*old(self), *final(self), key, r),
    {
        match key {
            Key::Enter => {
                let buf = self.input_buffer.clone();
                if self.current_screen == Screen::Account {
                    let r = self.confirm_amount(&buf);
                    if r.is_err() {
                        return r;
                    }
                } else if self.current_screen == Screen::Trade {
                    match self.trade_form.field {
                        TradeField::Price => self.trade_form.price = buf,
                        TradeField::Size => self.trade_form.size = buf,
                        TradeField::Leverage => self.trade_form.leverage = buf,
                        _ => {},
                    }
                }
                self.input_mode = InputMode::Normal;
                string_clear(&mut self.input_buffer);
                Ok(())
            },
            Key::Char(c) => {
                string_push(&mut self.input_buffer, c);
                Ok(())
            },
            Key::Backspace => {
                string_pop(&mut self.input_buffer);
                Ok(())
            },
            Key::Esc => {
                self.input_mode = InputMode::Normal;
                string_clear(&mut self.input_buffer);
                Ok(())
            },
            _ => Ok(()),
        }
    }

    /// Deposits or withdraws the amount `buf` as the message asks (see
    /// `amount_outcome`).
    fn confirm_amount(&mut self, buf: &String) -> (r: Result<(), Overflow>)
        requires
            old(self).wf(),
            buf@ == old(self).input_buffer@,
        ensures
            final(self).wf(),
            amount_outcome(*old(self), *final(self), r),
            r is Ok ==> *final(self) == (App { user: final(self).user, message: final(self).message, ..*old(self) }),
    {
        let amount = match dec_parse(buf.as_str()) {
            Some(x) => x,
            None => return Ok(()),
        };
        let deposit = match &self.message {
            Some(m) => str_contains(m.as_str(), "deposit"),
            None => false,
        };
        if deposit {
            if dec_checked_add(self.user.balance, amount).is_none() || dec_checked_add(
                self.user.available_balance,
                amount,
            ).is_none() {
                return Err(Overflow::Arithmetic);
            }
            self.user.deposit(amount);
            let mut text = String::from_str("Deposited ");
            let t = dec_text(amount);
            text.append(t.as_str());
            self.message = Some(text);
            return Ok(());
        }
        let withdraw = match &self.message {
            Some(m) => str_contains(m.as_str(), "withdraw"),
            None => false,
        };
        if withdraw {
            if amount.le(&self.user.available_balance) && (dec_checked_sub(
                self.user.balance,
                amount,
            ).is_none() || dec_checked_sub(self.user.available_balance, amount).is_none()) {
                return Err(Overflow::Arithmetic);
            }
            if self.user.withdraw(amount) {
                let mut text = String::from_str("Withdrew ");
                let t = dec_text(amount);
                text.append(t.as_str());
                self.message = Some(text);
            } else {
                self.message = Some(String::from_str("Insufficient balance"));
            }
        }
        Ok(())
    }

    /// Cancels the trader's order at the selected row of the current
    /// market's list (see `cancel_outcome`).
    pub fn cancel_selected_order(&mut self)
        requires
            old(self).wf(),
        ensures
            final(self).wf(),
            cancel_outcome(*old(self), *final(self)),
    {
        let market = self.engine.current_market();
        let orders = market.orderbook.user_orders(self.user.pubkey.as_str());
        if self.selected_row < orders.len() {
            let order_id = orders[self.selected_row].id;
            if self.engine.cancel_order(order_id) {
                self.message = Some(String::from_str("Order cancelled"));
            }
        }
    }

    /// Switches the side or the order type, whichever field has the focus.
    pub fn toggle_trade_field(&mut self)
        ensures
            only_form(*old(self), *final(self), toggled(old(self).trade_form)),
    {
        match self.trade_form.field {
            TradeField::Side => {
                self.trade_form.side = match self.trade_form.side {
                    OrderSide::Buy => OrderSide::Sell,
                    OrderSide::Sell => OrderSide::Buy,
                };
            },
            TradeField::Type => {
                self.trade_form.order_type = match self.trade_form.order_type {
                    OrderType::Market => OrderType::Limit,
                    OrderType::Limit => OrderType::Market,
                };
            },
            _ => {},
        }
    }
}

} // verus!
