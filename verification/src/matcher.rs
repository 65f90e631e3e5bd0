//! Matching an incoming order against the book.
use vstd::prelude::*;
use crate::decimal::{Dec, ddiff, dprod, dquot};
use crate::orderbook::{
    Level, Order, OrderBook, OrderSide, OrderType, insert_order, level_fill, opposite, side_sweep,
    trade_ok, trade_size, fill_for, with_remaining, lemma_lower_bound,
};

verus! {

/// One trade of an incoming order against a resting one, seen from the
/// incoming order: its id, user, side and leverage, the price and size of the
/// trade, and the margin it takes (notional over leverage).
#[derive(Clone, Debug)]
pub struct FillEvent {
    pub order_id: u64,
    pub user: String,
    pub side: OrderSide,
    pub price: Dec,
    pub size: Dec,
    pub margin_used: Dec,
    pub leverage: u32,
}

impl FillEvent {
    /// `self` and `other` agree field by field (the user by its text).
    pub open spec fn same_as(self, other: FillEvent) -> bool {
        &&& self.order_id == other.order_id
        &&& self.user@ == other.user@
        &&& self.side == other.side
        &&& self.price == other.price
        &&& self.size == other.size
        &&& self.margin_used == other.margin_used
        &&& self.leverage == other.leverage
    }
}

/// The amounts of every fill are valid decimals.
pub open spec fn fills_wf(s: Seq<FillEvent>) -> bool {
    forall|i: int|
        0 <= i < s.len() ==> (#[trigger] s[i]).price.wf() && s[i].size.wf() && s[i].margin_used.wf()
}

/// Two sequences of fills agree fill by fill.
pub open spec fn same_fills(a: Seq<FillEvent>, b: Seq<FillEvent>) -> bool {
    &&& a.len() == b.len()
    &&& forall|i: int| 0 <= i < a.len() ==> (#[trigger] a[i]).same_as(b[i])
}

/// The best price of the side an incoming order of side `taker_side` trades
/// against: the lowest ask for a buy, the highest bid for a sell.
pub open spec fn best_price(levels: Seq<Level>, taker_side: OrderSide) -> Dec {
    match taker_side {
        OrderSide::Buy => levels[0].0,
        OrderSide::Sell => levels.last().0,
    }
}

/// A limit order does not trade at `best`: a buy priced below it, a sell
/// priced above it.
pub open spec fn beyond_limit(taker: Order, best: Dec) -> bool {
    &&& taker.order_type == OrderType::Limit
    &&& match taker.side {
        OrderSide::Buy => taker.price.val() < best.val(),
        OrderSide::Sell => taker.price.val() > best.val(),
    }
}

/// Matching stops: nothing of the order is left, the other side is empty,
/// or its best price is beyond the order's limit.
pub open spec fn match_stops(levels: Seq<Level>, taker: Order) -> bool {
    ||| taker.remaining.val() <= 0
    ||| levels.len() == 0
    ||| beyond_limit(taker, best_price(levels, taker.side))
}

/// Repeated sweeps of the other side at its best price until matching stops
/// (at most `fuel` of them).  The result: that side afterwards, the fills in
/// order, the incoming order afterwards, and whether no arithmetic
/// overflowed.
pub open spec fn match_loop(levels: Seq<Level>, taker: Order, fuel: nat) -> (
    Seq<Level>,
    Seq<FillEvent>,
    Order,
    bool,
)
    decreases fuel,
{
    if fuel == 0 || match_stops(levels, taker) {
        (levels, seq![], taker, true)
    } else {
        let r = side_sweep(levels, best_price(levels, taker.side), taker);
        if !r.3 {
            (levels, seq![], taker, false)
        } else {
            let n = match_loop(r.0, r.2, (fuel - 1) as nat);
            (n.0, r.1 + n.1, n.2, n.3)
        }
    }
}

/// Matching `taker` against the side `levels`: sweeps at the best price until
/// matching stops.  Each sweep either empties the best level or leaves
/// nothing of the order, so `2 * levels.len() + 1` sweeps always suffice.
pub open spec fn match_result(levels: Seq<Level>, taker: Order) -> (
    Seq<Level>,
    Seq<FillEvent>,
    Order,
    bool,
) {
    match_loop(levels, taker, (2 * levels.len() + 1) as nat)
}

/// Matching `order` against `book` involves no arithmetic overflow.
pub open spec fn match_ok(book: OrderBook, order: Order) -> bool {
    match_result(book.side(opposite(order.side)), order).3
}

/// The prices of the levels rise strictly.
pub open spec fn prices_ascending(levels: Seq<Level>) -> bool {
    forall|i: int, j: int| 0 <= i < j < levels.len() ==> (#[trigger] levels[i]).0.val() < (
    #[trigger] levels[j]).0.val()
}

/// Fill `f` is for the order `taker`: its identifier, user, side and
/// leverage.
pub open spec fn fill_of(f: FillEvent, taker: Order) -> bool {
    &&& f.order_id == taker.id
    &&& f.user == taker.user
    &&& f.side == taker.side
    &&& f.leverage == taker.leverage
}

/// A price `p` is within the limit of `taker`: any price for a market order,
/// at most the limit for a limit buy, at least the limit for a limit sell.
pub open spec fn within_limit(taker: Order, p: Dec) -> bool {
    taker.order_type == OrderType::Limit ==> match taker.side {
        OrderSide::Buy => p.val() <= taker.price.val(),
        OrderSide::Sell => p.val() >= taker.price.val(),
    }
}

/// `q` is as good a price as `p` or worse for `taker`: no lower for a buy,
/// no higher for a sell.
pub open spec fn no_better(taker: Order, p: Dec, q: Dec) -> bool {
    match taker.side {
        OrderSide::Buy => p.val() <= q.val(),
        OrderSide::Sell => p.val() >= q.val(),
    }
}

/// One level's fills are at `price` and for `taker`, and the taker keeps
/// everything but its remaining size.
proof fn lemma_level_fill(orders: Seq<Order>, price: Dec, taker: Order)
    ensures
        ({
            let r = level_fill(orders, price, taker);
            &&& forall|i: int|
                0 <= i < r.1.len() ==> (#[trigger] r.1[i]).price == price && fill_of(r.1[i], taker)
            &&& r.2 == with_remaining(taker, r.2.remaining)
        }),
    decreases orders.len(),
{
    if orders.len() > 0 {
        let o = orders[0];
        if o.price.val() != price.val() || taker.remaining.val() <= 0 {
            lemma_level_fill(orders.drop_first(), price, taker);
        } else if trade_ok(o, price, taker) {
            let f = trade_size(o, taker);
            let t2 = with_remaining(taker, ddiff(taker.remaining, f));
            lemma_level_fill(orders.drop_first(), price, t2);
            let r = level_fill(orders.drop_first(), price, t2);
            let all = seq![fill_for(taker, price, f)] + r.1;
            assert forall|i: int| 0 <= i < all.len() implies (#[trigger] all[i]).price == price
                && fill_of(all[i], taker) by {
                if i > 0 {
                    assert(all[i] == r.1[i - 1]);
                }
            }
        }
    }
}

/// A sweep's fills are at `price` and for `taker`, the taker keeps
/// everything but its remaining size, and the levels that stay keep their
/// prices in ascending order, within those of `levels`.
proof fn lemma_side_sweep(levels: Seq<Level>, price: Dec, taker: Order)
    requires
        prices_ascending(levels),
    ensures
        ({
            let r = side_sweep(levels, price, taker);
            &&& forall|i: int|
                0 <= i < r.1.len() ==> (#[trigger] r.1[i]).price == price && fill_of(r.1[i], taker)
            &&& r.2 == with_remaining(taker, r.2.remaining)
            &&& prices_ascending(r.0)
            &&& r.0.len() > 0 ==> levels.len() > 0 && r.0[0].0.val() >= levels[0].0.val()
                && r.0.last().0.val() <= levels.last().0.val()
        }),
    decreases levels.len(),
{
    if levels.len() > 0 {
        let l = levels[0];
        let r0 = level_fill(l.1, price, taker);
        lemma_level_fill(l.1, price, taker);
        if r0.3 {
            let rest = levels.drop_first();
            assert(prices_ascending(rest)) by {
                assert forall|i: int, j: int| 0 <= i < j < rest.len() implies (#[trigger] rest[i]).0.val()
                    < (#[trigger] rest[j]).0.val() by {
                    assert(rest[i] == levels[i + 1]);
                    assert(rest[j] == levels[j + 1]);
                }
            }
            lemma_side_sweep(rest, price, r0.2);
            let r = side_sweep(rest, price, r0.2);
            let fills = r0.1 + r.1;
            assert forall|i: int| 0 <= i < fills.len() implies (#[trigger] fills[i]).price == price
                && fill_of(fills[i], taker) by {
                if i < r0.1.len() {
                    assert(fills[i] == r0.1[i]);
                } else {
                    assert(fills[i] == r.1[i - r0.1.len()]);
                }
            }
            if r.0.len() > 0 {
                assert(rest.len() > 0);
                assert(rest[0] == levels[1]);
                assert(rest.last() == levels.last());
            }
            if r0.0.len() > 0 {
                let out = seq![(l.0, r0.0)] + r.0;
                assert forall|i: int, j: int| 0 <= i < j < out.len() implies (#[trigger] out[i]).0.val()
                    < (#[trigger] out[j]).0.val() by {
                    if i == 0 {
                        assert(out[j] == r.0[j - 1]);
                        assert(r.0[0].0.val() <= r.0[j - 1].0.val());
                        assert(levels[0].0.val() < levels[1].0.val());
                    } else {
                        assert(out[i] == r.0[i - 1]);
                        assert(out[j] == r.0[j - 1]);
                    }
                }
                if r.0.len() > 0 {
                    assert(out.last() == r.0.last());
                } else {
                    assert(out.last() == (l.0, r0.0));
                    if levels.len() > 1 {
                        assert(levels[0].0.val() < levels.last().0.val());
                    }
                }
            }
        }
    }
}

/// Every fill of a run of sweeps is for `taker`, within its limit, no
/// better than the side's best price at the start, and no better than the
/// fills before it; the taker keeps everything but its remaining size.
proof fn lemma_match_loop(levels: Seq<Level>, taker: Order, fuel: nat)
    requires
        prices_ascending(levels),
    ensures
        ({
            let m = match_loop(levels, taker, fuel);
            &&& m.2 == with_remaining(taker, m.2.remaining)
            &&& forall|i: int|
                0 <= i < m.1.len() ==> fill_of(#[trigger] m.1[i], taker) && within_limit(
                    taker,
                    m.1[i].price,
                ) && no_better(taker, best_price(levels, taker.side), m.1[i].price)
            &&& forall|i: int, j: int|
                0 <= i < j < m.1.len() ==> no_better(taker, (#[trigger] m.1[i]).price, (
                #[trigger] m.1[j]).price)
            &&& prices_ascending(m.0)
            &&& m.0.len() > 0 ==> levels.len() > 0 && m.0[0].0.val() >= levels[0].0.val()
                && m.0.last().0.val() <= levels.last().0.val()
        }),
    decreases fuel,
{
    if fuel > 0 && !match_stops(levels, taker) {
        let best = best_price(levels, taker.side);
        let sw = side_sweep(levels, best, taker);
        lemma_side_sweep(levels, best, taker);
        if sw.3 {
            lemma_match_loop(sw.0, sw.2, (fuel - 1) as nat);
            let n = match_loop(sw.0, sw.2, (fuel - 1) as nat);
            let fills = sw.1 + n.1;
            assert(levels.len() > 0);
            assert(!beyond_limit(taker, best));
            if n.1.len() > 0 {
                assert(sw.0.len() > 0);
                let nb = best_price(sw.0, taker.side);
                assert(no_better(taker, best, nb));
            }
            assert forall|i: int| 0 <= i < fills.len() implies fill_of(#[trigger] fills[i], taker)
                && within_limit(taker, fills[i].price) && no_better(
                taker,
                best_price(levels, taker.side),
                fills[i].price,
            ) by {
                if i < sw.1.len() {
                    assert(fills[i] == sw.1[i]);
                } else {
                    assert(fills[i] == n.1[i - sw.1.len()]);
                }
            }
            assert forall|i: int, j: int| 0 <= i < j < fills.len() implies no_better(
                taker,
                (#[trigger] fills[i]).price,
                (#[trigger] fills[j]).price,
            ) by {
                if j < sw.1.len() {
                    assert(fills[i] == sw.1[i]);
                    assert(fills[j] == sw.1[j]);
                } else if i < sw.1.len() {
                    assert(fills[i] == sw.1[i]);
                    assert(fills[j] == n.1[j - sw.1.len()]);
                } else {
                    assert(fills[i] == n.1[i - sw.1.len()]);
                    assert(fills[j] == n.1[j - sw.1.len()]);
                }
            }
        }
    }
}

/// The fills of one level each take as margin their notional over their
/// leverage.
proof fn lemma_level_fill_margins(orders: Seq<Order>, price: Dec, taker: Order)
    ensures
        ({
            let fs = level_fill(orders, price, taker).1;
            forall|i: int|
                0 <= i < fs.len() ==> (#[trigger] fs[i]).margin_used == dquot(
                    dprod(fs[i].size, fs[i].price),
                    Dec { mantissa: fs[i].leverage as i128, scale: 0 },
                )
        }),
    decreases orders.len(),
{
    if orders.len() > 0 {
        let o = orders[0];
        if o.price.val() != price.val() || taker.remaining.val() <= 0 {
            lemma_level_fill_margins(orders.drop_first(), price, taker);
        } else if trade_ok(o, price, taker) {
            let f = trade_size(o, taker);
            let t2 = with_remaining(taker, ddiff(taker.remaining, f));
            lemma_level_fill_margins(orders.drop_first(), price, t2);
            let r = level_fill(orders.drop_first(), price, t2);
            let all = seq![fill_for(taker, price, f)] + r.1;
            assert forall|i: int| 0 <= i < all.len() implies (#[trigger] all[i]).margin_used == dquot(
                dprod(all[i].size, all[i].price),
                Dec { mantissa: all[i].leverage as i128, scale: 0 },
            ) by {
                if i > 0 {
                    assert(all[i] == r.1[i - 1]);
                }
            }
        }
    }
}

/// The fills of a sweep each take as margin their notional over their
/// leverage.
proof fn lemma_side_sweep_margins(levels: Seq<Level>, price: Dec, taker: Order)
    ensures
        ({
            let fs = side_sweep(levels, price, taker).1;
            forall|i: int|
                0 <= i < fs.len() ==> (#[trigger] fs[i]).margin_used == dquot(
                    dprod(fs[i].size, fs[i].price),
                    Dec { mantissa: fs[i].leverage as i128, scale: 0 },
                )
        }),
    decreases levels.len(),
{
    if levels.len() > 0 {
        let r0 = level_fill(levels[0].1, price, taker);
        lemma_level_fill_margins(levels[0].1, price, taker);
        if r0.3 {
            lemma_side_sweep_margins(levels.drop_first(), price, r0.2);
            let r = side_sweep(levels.drop_first(), price, r0.2);
            let fs = r0.1 + r.1;
            assert forall|i: int| 0 <= i < fs.len() implies (#[trigger] fs[i]).margin_used == dquot(
                dprod(fs[i].size, fs[i].price),
                Dec { mantissa: fs[i].leverage as i128, scale: 0 },
            ) by {
                if i < r0.1.len() {
                    assert(fs[i] == r0.1[i]);
                } else {
                    assert(fs[i] == r.1[i - r0.1.len()]);
                }
            }
        }
    }
}

/// The fills of a run of sweeps each take as margin their notional over
/// their leverage.
proof fn lemma_match_loop_margins(levels: Seq<Level>, taker: Order, fuel: nat)
    ensures
        ({
            let fs = match_loop(levels, taker, fuel).1;
            forall|i: int|
                0 <= i < fs.len() ==> (#[trigger] fs[i]).margin_used == dquot(
                    dprod(fs[i].size, fs[i].price),
                    Dec { mantissa: fs[i].leverage as i128, scale: 0 },
                )
        }),
    decreases fuel,
{
    if fuel > 0 && !match_stops(levels, taker) {
        let best = best_price(levels, taker.side);
        let sw = side_sweep(levels, best, taker);
        lemma_side_sweep_margins(levels, best, taker);
        if sw.3 {
            lemma_match_loop_margins(sw.0, sw.2, (fuel - 1) as nat);
            let n = match_loop(sw.0, sw.2, (fuel - 1) as nat);
            let fs = sw.1 + n.1;
            assert forall|i: int| 0 <= i < fs.len() implies (#[trigger] fs[i]).margin_used == dquot(
                dprod(fs[i].size, fs[i].price),
                Dec { mantissa: fs[i].leverage as i128, scale: 0 },
            ) by {
                if i < sw.1.len() {
                    assert(fs[i] == sw.1[i]);
                } else {
                    assert(fs[i] == n.1[i - sw.1.len()]);
                }
            }
        }
    }
}

/// At a level the oldest order trades first, for the smaller of its own
/// remaining size and the incoming order's: when it is at the sweep's price
/// and the incoming order has something left (and the trade's arithmetic
/// is in range), the first fill is at that price for a size no larger than
/// either remaining size and equal to one of them.
pub proof fn law_trade_takes_the_smaller_size(orders: Seq<Order>, price: Dec, taker: Order)
    requires
        orders.len() > 0,
        orders[0].price.val() == price.val(),
        taker.remaining.val() > 0,
        trade_ok(orders[0], price, taker),
    ensures
        ({
            let fs = level_fill(orders, price, taker).1;
            &&& fs.len() > 0
            &&& fs[0].price == price
            &&& fs[0].size.val() <= orders[0].remaining.val()
            &&& fs[0].size.val() <= taker.remaining.val()
            &&& fs[0].size == orders[0].remaining || fs[0].size == taker.remaining
        }),
{
}

/// Every fill of matching `taker` against the side `levels` takes as margin
/// its own notional over its leverage: `size * price / leverage`, computed
/// as decimals, with the fill's size, price and leverage; so the margin
/// follows the size of each fill, not only its price.
pub proof fn law_fill_margin_is_notional_over_leverage(levels: Seq<Level>, taker: Order)
    ensures
        forall|i: int|
            0 <= i < match_result(levels, taker).1.len() ==> (#[trigger] match_result(
                levels,
                taker,
            ).1[i]).margin_used == dquot(
                dprod(match_result(levels, taker).1[i].size, match_result(levels, taker).1[i].price),
                Dec { mantissa: match_result(levels, taker).1[i].leverage as i128, scale: 0 },
            ),
{
    lemma_match_loop_margins(levels, taker, (2 * levels.len() + 1) as nat);
}

/// Both sides of a well-formed book have strictly rising prices, as the
/// matching laws ask.
pub proof fn law_book_sides_ascending(book: OrderBook)
    requires
        book.wf(),
    ensures
        prices_ascending(book.side(OrderSide::Buy)),
        prices_ascending(book.side(OrderSide::Sell)),
{
}

/// Neither side crosses the other: one of them is empty, or the best bid is
/// below the best ask.
pub open spec fn uncrossed(bids: Seq<Level>, asks: Seq<Level>) -> bool {
    bids.len() == 0 || asks.len() == 0 || bids.last().0.val() < asks[0].0.val()
}

/// After inserting `o` into a side with rising prices, its lowest and its
/// highest price are each `o`'s price or the side's old one.
proof fn lemma_insert_ends(levels: Seq<Level>, o: Order)
    requires
        prices_ascending(levels),
    ensures
        insert_order(levels, o).len() > 0,
        insert_order(levels, o).last().0.val() == o.price.val() || (levels.len() > 0 && insert_order(
            levels,
            o,
        ).last().0.val() == levels.last().0.val()),
        insert_order(levels, o)[0].0.val() == o.price.val() || (levels.len() > 0 && insert_order(
            levels,
            o,
        )[0].0.val() == levels[0].0.val()),
{
    lemma_lower_bound(levels, o.price);
}

/// When matching an order of side `side` against the other side `opp` has
/// stopped (`match_stops`, as `match_order` ensures), the book is no more
/// crossed than before: the other side keeps only its own prices, and what
/// rests of a limit order is priced short of the other side's best price.
pub proof fn law_matching_keeps_book_uncrossed(own: Seq<Level>, opp: Seq<Level>, order: Order)
    requires
        prices_ascending(own),
        prices_ascending(opp),
        match_stops(match_result(opp, order).0, match_result(opp, order).2),
        (match order.side {
            OrderSide::Buy => uncrossed(own, opp),
            OrderSide::Sell => uncrossed(opp, own),
        }),
    ensures
        ({
            let m = match_result(opp, order);
            let own2 = if m.2.remaining.val() > 0 && order.order_type == OrderType::Limit {
                insert_order(own, m.2)
            } else {
                own
            };
            match order.side {
                OrderSide::Buy => uncrossed(own2, m.0),
                OrderSide::Sell => uncrossed(m.0, own2),
            }
        }),
{
    let m = match_result(opp, order);
    lemma_match_loop(opp, order, (2 * opp.len() + 1) as nat);
    if m.2.remaining.val() > 0 && order.order_type == OrderType::Limit {
        lemma_insert_ends(own, m.2);
    }
}

/// Every fill of matching `taker` against the side `levels` is the taker's:
/// it carries the taker's identifier, user, side and leverage.
pub proof fn law_fills_belong_to_taker(levels: Seq<Level>, taker: Order)
    requires
        prices_ascending(levels),
    ensures
        forall|i: int|
            0 <= i < match_result(levels, taker).1.len() ==> fill_of(
                #[trigger] match_result(levels, taker).1[i],
                taker,
            ),
{
    lemma_match_loop(levels, taker, (2 * levels.len() + 1) as nat);
}

/// A limit order never trades beyond its limit: a buy at no more than its
/// price, a sell at no less.
pub proof fn law_fills_within_limit(levels: Seq<Level>, taker: Order)
    requires
        prices_ascending(levels),
    ensures
        forall|i: int|
            0 <= i < match_result(levels, taker).1.len() ==> within_limit(
                taker,
                (#[trigger] match_result(levels, taker).1[i]).price,
            ),
{
    lemma_match_loop(levels, taker, (2 * levels.len() + 1) as nat);
}

/// Matching takes the best prices first: a buy's fills come at rising (or
/// equal) prices from the lowest ask up, a sell's at falling prices from the
/// highest bid down.
pub proof fn law_best_price_first(levels: Seq<Level>, taker: Order)
    requires
        prices_ascending(levels),
    ensures
        forall|i: int, j: int|
            0 <= i < j < match_result(levels, taker).1.len() ==> no_better(
                taker,
                (#[trigger] match_result(levels, taker).1[i]).price,
                (#[trigger] match_result(levels, taker).1[j]).price,
            ),
        forall|i: int|
            0 <= i < match_result(levels, taker).1.len() ==> no_better(
                taker,
                best_price(levels, taker.side),
                (#[trigger] match_result(levels, taker).1[i]).price,
            ),
{
    lemma_match_loop(levels, taker, (2 * levels.len() + 1) as nat);
}

/// Whether the incoming order still has something left (`> 0`).
spec fn measure(levels: Seq<Level>, taker: Order) -> nat {
    (2 * levels.len() + if taker.remaining.val() > 0 {
        1int
    } else {
        0int
    }) as nat
}

/// The price of the next sweep, or `None` when matching stops.
fn next_sweep_price(book: &OrderBook, taker: &Order) -> (r: Option<Dec>)
    requires
        book.wf(),
        taker.wf(),
    ensures
        r == (if match_stops(book.side(opposite(taker.side)), *taker) {
            None
        } else {
            Some(best_price(book.side(opposite(taker.side)), taker.side))
        }),
{
    if !taker.remaining.is_positive() {
        return None;
    }
    let best = match taker.side {
        OrderSide::Buy => book.best_ask(),
        OrderSide::Sell => book.best_bid(),
    };
    match best {
        None => None,
        Some(p) => {
            let beyond = taker.order_type == OrderType::Limit && match taker.side {
                OrderSide::Buy => taker.price.lt(&p),
                OrderSide::Sell => p.lt(&taker.price),
            };
            if beyond {
                None
            } else {
                Some(p)
            }
        },
    }
}

/// Runs the sweeps of matching `order` against `book`, checking every
/// operation for overflow; on success the rest of the order is returned.
#[verifier::loop_isolation(false)]
fn run_match(book: &mut OrderBook, order: Order, fills: &mut Vec<FillEvent>) -> (r: Option<Order>)
    requires
        old(book).wf(),
        order.wf(),
        old(fills)@.len() == 0,
    ensures
        final(book).wf(),
        fills_wf(final(fills)@),
        r is Some == match_ok(*old(book), order),
        r matches Some(t) ==> ({
            let m = match_result(old(book).side(opposite(order.side)), order);
            &&& t == m.2
            &&& match_stops(m.0, m.2)
            &&& t.wf()
            &&& t == with_remaining(order, t.remaining)
            &&& final(book).side(opposite(order.side)) == m.0
            &&& final(book).side(order.side) == old(book).side(order.side)
            &&& same_fills(final(fills)@, m.1)
        }),
{
    let ghost opp = opposite(order.side);
    let ghost lv0 = book.side(opp);
    let ghost own0 = book.side(order.side);
    let ghost mut fuel: nat = (2 * lv0.len() + 1) as nat;
    let ghost mut fadd: Seq<FillEvent> = seq![];
    let mut taker = order;
    let mut next = next_sweep_price(book, &taker);
    while next.is_some()
        invariant
            book.wf(),
            taker.wf(),
            taker == with_remaining(order, taker.remaining),
            opp == opposite(order.side),
            book.side(order.side) == own0,
            match_result(lv0, order) == ({
                let m = match_loop(book.side(opp), taker, fuel);
                (m.0, fadd + m.1, m.2, m.3)
            }),
            same_fills(fills@, fadd),
            fills_wf(fills@),
            measure(book.side(opp), taker) <= fuel,
            next == (if match_stops(book.side(opp), taker) {
                None
            } else {
                Some(best_price(book.side(opp), taker.side))
            }),
        decreases measure(book.side(opp), taker),
    {
        let price = match next {
            Some(p) => p,
            None => Dec::zero(),
        };
        let ghost levels_before = book.side(opp);
        let ghost t_before = taker;
        let ghost fills_before = fills@;
        proof {
            assert(levels_before.len() > 0);
            let b: int = match taker.side {
                OrderSide::Buy => 0,
                OrderSide::Sell => levels_before.len() - 1,
            };
            assert(levels_before[b].0 == price);
            assert(levels_before[b].0.wf());
        }
        let ok = match taker.side {
            OrderSide::Buy => book.iter_asks(price, &mut taker, fills),
            OrderSide::Sell => book.iter_bids(price, &mut taker, fills),
        };
        if !ok {
            proof {
                assert(fuel > 0);
                assert(match_loop(levels_before, t_before, fuel).3 == false);
            }
            return None;
        }
        proof {
            let sw = side_sweep(levels_before, price, t_before);
            let b: int = match t_before.side {
                OrderSide::Buy => 0,
                OrderSide::Sell => levels_before.len() - 1,
            };
            assert(levels_before[b].0.val() == price.val());
            assert(fuel > 0);
            let m_after = match_loop(sw.0, sw.2, (fuel - 1) as nat);
            assert(match_loop(levels_before, t_before, fuel) == (m_after.0, sw.1 + m_after.1, m_after.2, m_after.3));
            assert(fadd + (sw.1 + m_after.1) =~= (fadd + sw.1) + m_after.1);
            assert forall|q: int| 0 <= q < fills@.len() implies (#[trigger] fills@[q]).same_as(
                (fadd + sw.1)[q],
            ) by {
                assert(fills@[q].same_as((fills_before + sw.1)[q]));
                if q < fills_before.len() {
                    assert(fills_before[q].same_as(fadd[q]));
                }
            }
            fadd = fadd + sw.1;
            fuel = (fuel - 1) as nat;
        }
        next = next_sweep_price(book, &taker);
    }
    proof {
        assert(fadd + seq![] =~= fadd);
    }
    Some(taker)
}

/// Matches `order` against the other side of `book`: while something of it
/// is left, it sweeps the best level (lowest ask for a buy, highest bid for a
/// sell), oldest order first, unless a limit order's price is beyond that
/// level.  What is left of a limit order then rests in the book; a market
/// order never rests.  Returns the fills in the order they happened.
/// Matching ends only when nothing of the order is left, the other side is
/// empty, or its best price is beyond the order's limit (`match_stops`), so
/// a resting order never crosses the book.
pub fn match_order(book: &mut OrderBook, order: Order) -> (fills: Vec<FillEvent>)
    requires
        old(book).wf(),
        order.wf(),
        match_ok(*old(book), order),
    ensures
        final(book).wf(),
        fills_wf(fills@),
        ({
            let m = match_result(old(book).side(opposite(order.side)), order);
            &&& final(book).side(opposite(order.side)) == m.0
            &&& match_stops(m.0, m.2)
            &&& uncrossed(old(book).bid_levels(), old(book).ask_levels()) ==> uncrossed(
                final(book).bid_levels(),
                final(book).ask_levels(),
            )
            &&& same_fills(fills@, m.1)
            &&& forall|i: int|
                0 <= i < fills@.len() ==> (#[trigger] fills@[i]).margin_used == dquot(
                    dprod(fills@[i].size, fills@[i].price),
                    Dec { mantissa: fills@[i].leverage as i128, scale: 0 },
                )
            &&& final(book).side(order.side) == (if m.2.remaining.val() > 0 && order.order_type
                == OrderType::Limit {
                insert_order(old(book).side(order.side), m.2)
            } else {
                old(book).side(order.side)
            })
        }),
{
    match try_match_order(book, order) {
        Some(fills) => fills,
        None => Vec::new(),
    }
}

/// `match_order` where the arithmetic may overflow: `None` exactly when it
/// would (`match_order` would panic there); the book is then left part way.
pub fn try_match_order(book: &mut OrderBook, order: Order) -> (r: Option<Vec<FillEvent>>)
    requires
        old(book).wf(),
        order.wf(),
    ensures
        final(book).wf(),
        r is Some == match_ok(*old(book), order),
        r matches Some(fills) ==> fills_wf(fills@),
        r matches Some(fills) ==> ({
            let m = match_result(old(book).side(opposite(order.side)), order);
            &&& final(book).side(opposite(order.side)) == m.0
            &&& match_stops(m.0, m.2)
            &&& uncrossed(old(book).bid_levels(), old(book).ask_levels()) ==> uncrossed(
                final(book).bid_levels(),
                final(book).ask_levels(),
            )
            &&& same_fills(fills@, m.1)
            &&& forall|i: int|
                0 <= i < fills@.len() ==> (#[trigger] fills@[i]).margin_used == dquot(
                    dprod(fills@[i].size, fills@[i].price),
                    Dec { mantissa: fills@[i].leverage as i128, scale: 0 },
                )
            &&& final(book).side(order.side) == (if m.2.remaining.val() > 0 && order.order_type
                == OrderType::Limit {
                insert_order(old(book).side(order.side), m.2)
            } else {
                old(book).side(order.side)
            })
        }),
{
    let mut fills: Vec<FillEvent> = Vec::new();
    let ghost own0 = book.side(order.side);
    let ghost opp0 = book.side(opposite(order.side));
    let ghost was_uncrossed = uncrossed(book.bid_levels(), book.ask_levels());
    proof {
        law_book_sides_ascending(*book);
    }
    match run_match(book, order, &mut fills) {
        None => None,
        Some(rest) => {
            proof {
                if was_uncrossed {
                    law_matching_keeps_book_uncrossed(own0, opp0, order);
                }
                law_fill_margin_is_notional_over_leverage(opp0, order);
                let m = match_result(opp0, order);
                assert forall|i: int| 0 <= i < fills@.len() implies (#[trigger] fills@[i]).margin_used
                    == dquot(
                    dprod(fills@[i].size, fills@[i].price),
                    Dec { mantissa: fills@[i].leverage as i128, scale: 0 },
                ) by {
                    assert(fills@[i].same_as(m.1[i]));
                }
            }
            if rest.remaining.is_positive() && rest.order_type == OrderType::Limit {
                book.add_order(rest);
            }
            Some(fills)
        },
    }
}

} // verus!
