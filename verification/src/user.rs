//! A trader's account: balances, open positions and history.
use vstd::prelude::*;
use crate::clock::now_secs;
use crate::decimal::{
    Dec, add_ok, ddiff, div_ok, dprod, dquot, dsum, mul_ok, sub_ok, dec_checked_add, dec_checked_div,
    dec_checked_mul, dec_checked_sub,
};
use crate::matcher::FillEvent;
use crate::orderbook::{
    OrderSide, dec_of_u32, first_index, lemma_first_index, lemma_first_index_unique,
};

verus! {

/// An open position in one market.  `opened_at` is in seconds since the Unix
/// epoch.
#[derive(Debug)]
pub struct Position {
    pub market: String,
    pub side: OrderSide,
    pub size: Dec,
    pub entry_price: Dec,
    pub margin: Dec,
    pub leverage: u32,
    pub unrealized_pnl: Dec,
    pub liquidation_price: Dec,
    pub opened_at: i64,
}

/// A submitted order, as kept in the history.
#[derive(Debug)]
pub struct OrderHistoryItem {
    pub side: OrderSide,
    pub price: Dec,
    pub size: Dec,
    pub leverage: u32,
    pub timestamp: i64,
    pub status: String,
}

/// A fill, as kept in the history; `pnl` records the account balance right
/// after the fill.
#[derive(Debug)]
pub struct FillHistoryItem {
    pub side: OrderSide,
    pub price: Dec,
    pub size: Dec,
    pub pnl: Dec,
    pub timestamp: i64,
}

/// A trader's account.
#[derive(Debug)]
pub struct UserAccount {
    pub pubkey: String,
    pub balance: Dec,
    pub available_balance: Dec,
    pub positions: Vec<Position>,
    pub order_history: Vec<OrderHistoryItem>,
    pub fill_history: Vec<FillHistoryItem>,
}

impl Position {
    /// Its amounts are valid decimals.
    pub open spec fn wf(self) -> bool {
        &&& self.size.wf()
        &&& self.entry_price.wf()
        &&& self.margin.wf()
        &&& self.unrealized_pnl.wf()
        &&& self.liquidation_price.wf()
    }
}

/// The position is in market `m`.
pub open spec fn in_market(m: Seq<char>) -> spec_fn(Position) -> bool {
    |p: Position| p.market@ == m
}

/// Index of the position in market `m` (the length if there is none).
pub open spec fn position_index(ps: Seq<Position>, m: Seq<char>) -> nat {
    first_index(ps, in_market(m))
}

/// Positions with valid amounts, at most one per market.
pub open spec fn positions_wf(ps: Seq<Position>) -> bool {
    &&& forall|i: int| 0 <= i < ps.len() ==> (#[trigger] ps[i]).wf()
    &&& forall|i: int, j: int|
        0 <= i < j < ps.len() ==> (#[trigger] ps[i]).market@ != (#[trigger] ps[j]).market@
}

/// The market every fill is booked in.
pub open spec fn fill_market() -> Seq<char> {
    "BTC-PERP"@
}

/// The maintenance margin rate used for liquidation prices: the decimal that
/// `Decimal::from_f64_retain(0.05)` gives (the binary value of `0.05_f64` to
/// 28 places).
pub open spec fn maint_rate() -> Dec {
    Dec { mantissa: 500000000000000027755575615, scale: 28 }
}

/// One (`Decimal::ONE`).
pub open spec fn dec_one() -> Dec {
    Dec { mantissa: 1, scale: 0 }
}

/// Profit of a position of `size` entered at `entry`, valued at `mark`:
/// `size * (mark - entry)` long, `size * (entry - mark)` short.
pub open spec fn pnl_of(side: OrderSide, size: Dec, entry: Dec, mark: Dec) -> Dec {
    match side {
        OrderSide::Buy => dprod(size, ddiff(mark, entry)),
        OrderSide::Sell => dprod(size, ddiff(entry, mark)),
    }
}

/// `pnl_of` does not overflow.
pub open spec fn pnl_ok(side: OrderSide, size: Dec, entry: Dec, mark: Dec) -> bool {
    match side {
        OrderSide::Buy => sub_ok(mark, entry) && mul_ok(size, ddiff(mark, entry)),
        OrderSide::Sell => sub_ok(entry, mark) && mul_ok(size, ddiff(entry, mark)),
    }
}

/// Liquidation price of a position entered at `entry` with `leverage`:
/// `entry * (1 - 1/leverage + m)` long, `entry * (1 + 1/leverage - m)` short,
/// `m` the maintenance rate.
pub open spec fn liq_price_of(side: OrderSide, entry: Dec, leverage: u32) -> Dec {
    let q = dquot(dec_one(), dec_of_u32(leverage));
    match side {
        OrderSide::Buy => dprod(entry, dsum(ddiff(dec_one(), q), maint_rate())),
        OrderSide::Sell => dprod(entry, ddiff(dsum(dec_one(), q), maint_rate())),
    }
}

/// `liq_price_of` neither overflows nor divides by zero (the leverage is not
/// zero).
pub open spec fn liq_ok(side: OrderSide, entry: Dec, leverage: u32) -> bool {
    let q = dquot(dec_one(), dec_of_u32(leverage));
    &&& div_ok(dec_one(), dec_of_u32(leverage))
    &&& match side {
        OrderSide::Buy => sub_ok(dec_one(), q) && add_ok(ddiff(dec_one(), q), maint_rate())
            && mul_ok(entry, dsum(ddiff(dec_one(), q), maint_rate())),
        OrderSide::Sell => add_ok(dec_one(), q) && sub_ok(dsum(dec_one(), q), maint_rate())
            && mul_ok(entry, ddiff(dsum(dec_one(), q), maint_rate())),
    }
}

/// `p` with new amounts (market, side, leverage and opening time kept).
pub open spec fn position_with(
    p: Position,
    size: Dec,
    entry: Dec,
    margin: Dec,
    upnl: Dec,
    liq: Dec,
) -> Position {
    Position {
        market: p.market,
        side: p.side,
        size: size,
        entry_price: entry,
        margin: margin,
        leverage: p.leverage,
        unrealized_pnl: upnl,
        liquidation_price: liq,
        opened_at: p.opened_at,
    }
}

/// `q` is a position newly opened in the fill market by a fill of side
/// `side`: entered at `entry` with `size`, `margin` and `leverage`, no
/// unrealized profit yet, and its liquidation price.
pub open spec fn fresh_position(
    q: Position,
    side: OrderSide,
    size: Dec,
    entry: Dec,
    margin: Dec,
    leverage: u32,
) -> bool {
    &&& q.market@ == fill_market()
    &&& q.side == side
    &&& q.size == size
    &&& q.entry_price == entry
    &&& q.margin == margin
    &&& q.leverage == leverage
    &&& q.unrealized_pnl == Dec { mantissa: 0, scale: 0 }
    &&& q.liquidation_price == liq_price_of(side, entry, leverage)
}

/// The arithmetic of `apply_fill` stays in range (and no division by zero).
pub open spec fn apply_fill_ok(u: UserAccount, fill: FillEvent, mark: Dec) -> bool {
    let ps = u.positions@;
    let i = position_index(ps, fill_market()) as int;
    if i < ps.len() {
        let p = ps[i];
        if p.side == fill.side {
            let new_size = dsum(p.size, fill.size);
            let total = dsum(dprod(p.entry_price, p.size), dprod(fill.price, fill.size));
            let entry = dquot(total, new_size);
            &&& add_ok(p.size, fill.size)
            &&& mul_ok(p.entry_price, p.size)
            &&& mul_ok(fill.price, fill.size)
            &&& add_ok(dprod(p.entry_price, p.size), dprod(fill.price, fill.size))
            &&& div_ok(total, new_size)
            &&& add_ok(p.margin, fill.margin_used)
            &&& pnl_ok(p.side, new_size, entry, mark)
            &&& liq_ok(p.side, entry, p.leverage)
        } else if p.size.val() <= fill.size.val() {
            let pnl = pnl_of(p.side, p.size, p.entry_price, fill.price);
            let rem = ddiff(fill.size, p.size);
            &&& pnl_ok(p.side, p.size, p.entry_price, fill.price)
            &&& add_ok(u.balance, pnl)
            &&& add_ok(p.margin, pnl)
            &&& add_ok(u.available_balance, dsum(p.margin, pnl))
            &&& sub_ok(fill.size, p.size)
            &&& (rem.val() > 0 ==> {
                &&& div_ok(rem, fill.size)
                &&& mul_ok(fill.margin_used, dquot(rem, fill.size))
                &&& liq_ok(fill.side, fill.price, fill.leverage)
            })
        } else {
            let pnl = pnl_of(p.side, fill.size, p.entry_price, fill.price);
            &&& pnl_ok(p.side, fill.size, p.entry_price, fill.price)
            &&& add_ok(u.balance, pnl)
            &&& add_ok(fill.margin_used, pnl)
            &&& add_ok(u.available_balance, dsum(fill.margin_used, pnl))
            &&& sub_ok(p.size, fill.size)
            &&& sub_ok(p.margin, fill.margin_used)
            &&& pnl_ok(p.side, ddiff(p.size, fill.size), p.entry_price, mark)
        }
    } else {
        liq_ok(fill.side, fill.price, fill.leverage)
    }
}

/// What `apply_fill` does to the balances and positions of the account `u`,
/// which becomes `v`.  Every fill is booked in the market `fill_market()`:
/// - a fill on the side of the open position adds to it: the entry price
///   becomes the size-weighted average, the margin grows by the fill's, and
///   the unrealized profit (at `mark`) and liquidation price are recomputed;
/// - an opposite fill at least as large closes the position at the fill price
///   (profit and released margin go to the balances) and opens what exceeds
///   it as a new position, its margin the matching share of the fill's;
/// - a smaller opposite fill closes that part at the fill price and releases
///   the fill's margin;
/// - with no position, the fill opens one.
pub open spec fn apply_fill_post(u: UserAccount, v: UserAccount, fill: FillEvent, mark: Dec) -> bool {
    let ps = u.positions@;
    let qs = v.positions@;
    let i = position_index(ps, fill_market()) as int;
    &&& v.pubkey == u.pubkey
    &&& v.order_history == u.order_history
    &&& if i < ps.len() {
        let p = ps[i];
        if p.side == fill.side {
            let new_size = dsum(p.size, fill.size);
            let total = dsum(dprod(p.entry_price, p.size), dprod(fill.price, fill.size));
            let entry = dquot(total, new_size);
            &&& v.balance == u.balance
            &&& v.available_balance == u.available_balance
            &&& qs == ps.update(
                i,
                position_with(
                    p,
                    new_size,
                    entry,
                    dsum(p.margin, fill.margin_used),
                    pnl_of(p.side, new_size, entry, mark),
                    liq_price_of(p.side, entry, p.leverage),
                ),
            )
        } else if p.size.val() <= fill.size.val() {
            let pnl = pnl_of(p.side, p.size, p.entry_price, fill.price);
            let rem = ddiff(fill.size, p.size);
            &&& v.balance == dsum(u.balance, pnl)
            &&& v.available_balance == dsum(u.available_balance, dsum(p.margin, pnl))
            &&& if rem.val() > 0 {
                &&& qs.len() == ps.len()
                &&& forall|j: int| 0 <= j < ps.len() && j != i ==> qs[j] == ps[j]
                &&& fresh_position(
                    qs[i],
                    fill.side,
                    rem,
                    fill.price,
                    dprod(fill.margin_used, dquot(rem, fill.size)),
                    fill.leverage,
                )
            } else {
                qs == ps.remove(i)
            }
        } else {
            let pnl = pnl_of(p.side, fill.size, p.entry_price, fill.price);
            let size = ddiff(p.size, fill.size);
            &&& v.balance == dsum(u.balance, pnl)
            &&& v.available_balance == dsum(u.available_balance, dsum(fill.margin_used, pnl))
            &&& qs == ps.update(
                i,
                position_with(
                    p,
                    size,
                    p.entry_price,
                    ddiff(p.margin, fill.margin_used),
                    pnl_of(p.side, size, p.entry_price, mark),
                    p.liquidation_price,
                ),
            )
        }
    } else {
        &&& v.balance == u.balance
        &&& v.available_balance == u.available_balance
        &&& qs.len() == ps.len() + 1
        &&& qs.drop_last() == ps
        &&& fresh_position(
            qs.last(),
            fill.side,
            fill.size,
            fill.price,
            fill.margin_used,
            fill.leverage,
        )
    }
}

/// Adding to a position: after a fill on the side of the open position in
/// the fill market, the account's position in that market (found by its
/// market, as before) is on the same side with the summed size, and its
/// entry price is the size-weighted average of the old entry and the fill
/// price, `(entry * size + fill price * fill size) / (size + fill size)`,
/// computed as decimals; its margin grows by the fill's margin, the other
/// positions and both balances stay as they were.
pub proof fn law_same_side_fill_averages_entry(u: UserAccount, v: UserAccount, fill: FillEvent, mark: Dec)
    requires
        apply_fill_post(u, v, fill, mark),
        position_index(u.positions@, fill_market()) < u.positions@.len(),
        u.positions@[position_index(u.positions@, fill_market()) as int].side == fill.side,
    ensures
        ({
            let i = position_index(u.positions@, fill_market()) as int;
            let p = u.positions@[i];
            let q = v.positions@[position_index(v.positions@, fill_market()) as int];
            &&& position_index(v.positions@, fill_market()) == i
            &&& v.positions@.len() == u.positions@.len()
            &&& q.market == p.market
            &&& q.side == p.side
            &&& q.size == dsum(p.size, fill.size)
            &&& q.entry_price == dquot(
                dsum(dprod(p.entry_price, p.size), dprod(fill.price, fill.size)),
                dsum(p.size, fill.size),
            )
            &&& q.margin == dsum(p.margin, fill.margin_used)
            &&& q.leverage == p.leverage
            &&& forall|j: int| 0 <= j < u.positions@.len() && j != i ==> v.positions@[j] == u.positions@[j]
            &&& v.balance == u.balance
            &&& v.available_balance == u.available_balance
        }),
{
    let ps = u.positions@;
    let qs = v.positions@;
    let i = position_index(ps, fill_market()) as int;
    lemma_first_index(ps, in_market(fill_market()));
    assert forall|j: int| 0 <= j < i implies !in_market(fill_market())(#[trigger] qs[j]) by {
        assert(qs[j] == ps[j]);
        assert(!in_market(fill_market())(ps[j]));
    }
    assert(in_market(fill_market())(ps[i]));
    assert(qs[i].market == ps[i].market);
    lemma_first_index_unique(qs, in_market(fill_market()), i);
}

/// Closing: after a fill against the open position in the fill market of
/// at most the fill's size, the position's profit at the fill price
/// (`size * (fill price - entry)` long, `size * (entry - fill price)`
/// short) is added to the balance, and that profit with the position's
/// margin to the available balance.  What the fill has beyond the position
/// opens a position on the fill's side at the fill price; when nothing is
/// beyond, no position in that market is left.
pub proof fn law_opposite_fill_closes_and_realizes(u: UserAccount, v: UserAccount, fill: FillEvent, mark: Dec)
    requires
        u.wf(),
        apply_fill_post(u, v, fill, mark),
        position_index(u.positions@, fill_market()) < u.positions@.len(),
        u.positions@[position_index(u.positions@, fill_market()) as int].side != fill.side,
        u.positions@[position_index(u.positions@, fill_market()) as int].size.val() <= fill.size.val(),
    ensures
        ({
            let i = position_index(u.positions@, fill_market()) as int;
            let p = u.positions@[i];
            let pnl = match p.side {
                OrderSide::Buy => dprod(p.size, ddiff(fill.price, p.entry_price)),
                OrderSide::Sell => dprod(p.size, ddiff(p.entry_price, fill.price)),
            };
            let rest = ddiff(fill.size, p.size);
            &&& v.balance == dsum(u.balance, pnl)
            &&& v.available_balance == dsum(u.available_balance, dsum(p.margin, pnl))
            &&& rest.val() > 0 ==> {
                &&& v.positions@[i].market@ == fill_market()
                &&& v.positions@[i].side == fill.side
                &&& v.positions@[i].size == rest
                &&& v.positions@[i].entry_price == fill.price
                &&& v.positions@[i].leverage == fill.leverage
            }
            &&& rest.val() <= 0 ==> forall|j: int|
                0 <= j < v.positions@.len() ==> (#[trigger] v.positions@[j]).market@ != fill_market()
        }),
{
    let ps = u.positions@;
    let i = position_index(ps, fill_market()) as int;
    lemma_first_index(ps, in_market(fill_market()));
    let rest = ddiff(fill.size, ps[i].size);
    if rest.val() <= 0 {
        let qs = v.positions@;
        assert forall|j: int| 0 <= j < qs.len() implies (#[trigger] qs[j]).market@ != fill_market() by {
            if j < i {
                assert(qs[j] == ps[j]);
            } else {
                assert(qs[j] == ps[j + 1]);
                assert(ps[i].market@ != ps[j + 1].market@);
            }
        }
    }
}

/// Reducing: after a fill against the open position in the fill market,
/// smaller than the position, the position keeps its side and entry price,
/// its size and margin go down by the fill's, the profit on the filled part
/// at the fill price (`fill size * (fill price - entry)` long, `fill size *
/// (entry - fill price)` short) is added to the balance, and that profit
/// with the fill's margin to the available balance.
pub proof fn law_smaller_opposite_fill_reduces(u: UserAccount, v: UserAccount, fill: FillEvent, mark: Dec)
    requires
        apply_fill_post(u, v, fill, mark),
        position_index(u.positions@, fill_market()) < u.positions@.len(),
        u.positions@[position_index(u.positions@, fill_market()) as int].side != fill.side,
        u.positions@[position_index(u.positions@, fill_market()) as int].size.val() > fill.size.val(),
    ensures
        ({
            let i = position_index(u.positions@, fill_market()) as int;
            let p = u.positions@[i];
            let q = v.positions@[i];
            let pnl = match p.side {
                OrderSide::Buy => dprod(fill.size, ddiff(fill.price, p.entry_price)),
                OrderSide::Sell => dprod(fill.size, ddiff(p.entry_price, fill.price)),
            };
            &&& v.positions@.len() == u.positions@.len()
            &&& q.market == p.market
            &&& q.side == p.side
            &&& q.entry_price == p.entry_price
            &&& q.size == ddiff(p.size, fill.size)
            &&& q.margin == ddiff(p.margin, fill.margin_used)
            &&& v.balance == dsum(u.balance, pnl)
            &&& v.available_balance == dsum(u.available_balance, dsum(fill.margin_used, pnl))
        }),
{
}

/// Opening: with no position in the fill market, a fill opens one there on
/// the fill's side, of the fill's size at the fill's price, with the
/// fill's margin and leverage and no profit yet; the other positions and
/// both balances stay.
pub proof fn law_first_fill_opens_position(u: UserAccount, v: UserAccount, fill: FillEvent, mark: Dec)
    requires
        apply_fill_post(u, v, fill, mark),
        position_index(u.positions@, fill_market()) >= u.positions@.len(),
    ensures
        v.positions@.len() == u.positions@.len() + 1,
        forall|j: int| 0 <= j < u.positions@.len() ==> v.positions@[j] == u.positions@[j],
        v.positions@.last().market@ == fill_market(),
        v.positions@.last().side == fill.side,
        v.positions@.last().size == fill.size,
        v.positions@.last().entry_price == fill.price,
        v.positions@.last().margin == fill.margin_used,
        v.positions@.last().leverage == fill.leverage,
        v.positions@.last().unrealized_pnl == (Dec { mantissa: 0, scale: 0 }),
        v.balance == u.balance,
        v.available_balance == u.available_balance,
{
    assert forall|j: int| 0 <= j < u.positions@.len() implies v.positions@[j] == u.positions@[j] by {
        assert(v.positions@.drop_last()[j] == v.positions@[j]);
    }
}

impl UserAccount {
    /// Valid balances and positions.
    pub open spec fn wf(self) -> bool {
        &&& self.balance.wf()
        &&& self.available_balance.wf()
        &&& positions_wf(self.positions@)
    }

    /// A new, empty account with a freshly generated key.
    pub fn new() -> (r: UserAccount)
        ensures
            r.wf(),
            exists|b: Seq<u8>| b.len() == 32 && r.pubkey@ == base58(b),
            r.balance == (Dec { mantissa: 0, scale: 0 }),
            r.available_balance == (Dec { mantissa: 0, scale: 0 }),
            r.positions@.len() == 0,
            r.order_history@.len() == 0,
            r.fill_history@.len() == 0,
    {
        UserAccount {
            pubkey: generate_pubkey(),
            balance: Dec::zero(),
            available_balance: Dec::zero(),
            positions: Vec::new(),
            order_history: Vec::new(),
            fill_history: Vec::new(),
        }
    }

    /// Adds `amount` to both the balance and the available balance.
    pub fn deposit(&mut self, amount: Dec)
        requires
            old(self).wf(),
            amount.wf(),
            add_ok(old(self).balance, amount),
            add_ok(old(self).available_balance, amount),
        ensures
            final(self).wf(),
            final(self).balance == dsum(old(self).balance, amount),
            final(self).available_balance == dsum(old(self).available_balance, amount),
            final(self).pubkey == old(self).pubkey,
            final(self).positions == old(self).positions,
            final(self).order_history == old(self).order_history,
            final(self).fill_history == old(self).fill_history,
    {
        self.balance = self.balance.plus(amount);
        self.available_balance = self.available_balance.plus(amount);
    }

    /// Takes `amount` off both balances when the available balance covers it;
    /// returns whether it did.
    pub fn withdraw(&mut self, amount: Dec) -> (r: bool)
        requires
            old(self).wf(),
            amount.wf(),
            amount.val() <= old(self).available_balance.val() ==> sub_ok(old(self).balance, amount)
                && sub_ok(old(self).available_balance, amount),
        ensures
            final(self).wf(),
            r == (amount.val() <= old(self).available_balance.val()),
            r ==> final(self).balance == ddiff(old(self).balance, amount)
                && final(self).available_balance == ddiff(old(self).available_balance, amount),
            !r ==> final(self).balance == old(self).balance && final(self).available_balance
                == old(self).available_balance,
            final(self).pubkey == old(self).pubkey,
            final(self).positions == old(self).positions,
            final(self).order_history == old(self).order_history,
            final(self).fill_history == old(self).fill_history,
    {
        if amount.le(&self.available_balance) {
            self.balance = self.balance.minus(amount);
            self.available_balance = self.available_balance.minus(amount);
            true
        } else {
            false
        }
    }

    /// Books `fill` in the fill market (see `apply_fill_post`), with the
    /// unrealized profit valued at `mark`, and records the fill in the history
    /// with the balance after it.
    pub fn apply_fill(&mut self, fill: &FillEvent, mark: Dec)
        requires
            old(self).wf(),
            fill.price.wf(),
            fill.size.wf(),
            fill.margin_used.wf(),
            mark.wf(),
            apply_fill_ok(*old(self), *fill, mark),
        ensures
            final(self).wf(),
            apply_fill_post(*old(self), *final(self), *fill, mark),
            final(self).fill_history@.len() == old(self).fill_history@.len() + 1,
            final(self).fill_history@.drop_last() == old(self).fill_history@,
            final(self).fill_history@.last().side == fill.side,
            final(self).fill_history@.last().price == fill.price,
            final(self).fill_history@.last().size == fill.size,
            final(self).fill_history@.last().pnl == final(self).balance,
    {
        let market = String::from_str("BTC-PERP");
        let ghost ps = self.positions@;
        let i = find_position(&self.positions, &market);
        proof {
            assert(market@ == fill_market());
            lemma_first_index(ps, in_market(fill_market()));
        }
        if i < self.positions.len() {
            let mut pos = self.positions.remove(i);
            let ghost p = pos;
            proof {
                assert(ps[i as int] == p);
            }
            if pos.side == fill.side {
                let new_size = pos.size.plus(fill.size);
                let total_cost = pos.entry_price.times(pos.size).plus(fill.price.times(fill.size));
                pos.entry_price = total_cost.divided_by(new_size);
                pos.size = new_size;
                pos.margin = pos.margin.plus(fill.margin_used);
                pos.unrealized_pnl = calculate_pnl(pos.side, pos.size, pos.entry_price, mark);
                pos.liquidation_price = calculate_liquidation_price(
                    pos.side,
                    pos.entry_price,
                    pos.leverage,
                );
                self.positions.insert(i, pos);
                proof {
                    lemma_update_keeps_wf(ps, i as int, self.positions@[i as int]);
                    assert(self.positions@ =~= ps.update(i as int, self.positions@[i as int]));
                }
            } else if pos.size.le(&fill.size) {
                let pnl = calculate_pnl(pos.side, pos.size, pos.entry_price, fill.price);
                self.balance = self.balance.plus(pnl);
                self.available_balance = self.available_balance.plus(pos.margin.plus(pnl));
                let remaining = fill.size.minus(pos.size);
                if remaining.is_positive() {
                    let new_pos = Position {
                        market: market,
                        side: fill.side,
                        size: remaining,
                        entry_price: fill.price,
                        margin: fill.margin_used.times(remaining.divided_by(fill.size)),
                        leverage: fill.leverage,
                        unrealized_pnl: Dec::zero(),
                        liquidation_price: calculate_liquidation_price(
                            fill.side,
                            fill.price,
                            fill.leverage,
                        ),
                        opened_at: now_secs(),
                    };
                    self.positions.insert(i, new_pos);
                    proof {
                        lemma_update_keeps_wf(ps, i as int, self.positions@[i as int]);
                        assert(self.positions@ =~= ps.update(i as int, self.positions@[i as int]));
                    }
                } else {
                    proof {
                        lemma_remove_keeps_wf(ps, i as int);
                        assert(self.positions@ =~= ps.remove(i as int));
                    }
                }
            } else {
                let pnl = calculate_pnl(pos.side, fill.size, pos.entry_price, fill.price);
                self.balance = self.balance.plus(pnl);
                self.available_balance = self.available_balance.plus(fill.margin_used.plus(pnl));
                pos.size = pos.size.minus(fill.size);
                pos.margin = pos.margin.minus(fill.margin_used);
                pos.unrealized_pnl = calculate_pnl(pos.side, pos.size, pos.entry_price, mark);
                self.positions.insert(i, pos);
                proof {
                    lemma_update_keeps_wf(ps, i as int, self.positions@[i as int]);
                    assert(self.positions@ =~= ps.update(i as int, self.positions@[i as int]));
                }
            }
        } else {
            let pos = Position {
                market: market,
                side: fill.side,
                size: fill.size,
                entry_price: fill.price,
                margin: fill.margin_used,
                leverage: fill.leverage,
                unrealized_pnl: Dec::zero(),
                liquidation_price: calculate_liquidation_price(
                    fill.side,
                    fill.price,
                    fill.leverage,
                ),
                opened_at: now_secs(),
            };
            self.positions.push(pos);
            proof {
                assert(self.positions@.drop_last() =~= ps);
                assert forall|a: int, b: int|
                    0 <= a < b < self.positions@.len() implies (#[trigger] self.positions@[a]).market@
                    != (#[trigger] self.positions@[b]).market@ by {
                    if b == ps.len() {
                        assert(!in_market(fill_market())(ps[a]));
                    }
                }
            }
        }
        self.fill_history.push(
            FillHistoryItem {
                side: fill.side,
                price: fill.price,
                size: fill.size,
                pnl: self.balance,
                timestamp: now_secs(),
            },
        );
        proof {
            assert(self.fill_history@.drop_last() =~= old(self).fill_history@);
        }
    }

    /// Revalues every position at `mark`.
    pub fn update_unrealized_pnl(&mut self, mark: Dec)
        requires
            old(self).wf(),
            mark.wf(),
            forall|j: int|
                0 <= j < old(self).positions@.len() ==> pnl_ok(
                    (#[trigger] old(self).positions@[j]).side,
                    old(self).positions@[j].size,
                    old(self).positions@[j].entry_price,
                    mark,
                ),
        ensures
            final(self).wf(),
            final(self).positions@.len() == old(self).positions@.len(),
            forall|j: int|
                0 <= j < old(self).positions@.len() ==> #[trigger] final(self).positions@[j]
                    == revalued(old(self).positions@[j], mark),
            final(self).pubkey == old(self).pubkey,
            final(self).balance == old(self).balance,
            final(self).available_balance == old(self).available_balance,
            final(self).order_history == old(self).order_history,
            final(self).fill_history == old(self).fill_history,
    {
        let ghost ps = self.positions@;
        let mut j: usize = 0;
        while j < self.positions.len()
            invariant
                0 <= j <= self.positions@.len(),
                self.positions@.len() == ps.len(),
                mark.wf(),
                positions_wf(self.positions@),
                self.pubkey == old(self).pubkey,
                self.balance == old(self).balance,
                self.available_balance == old(self).available_balance,
                self.order_history == old(self).order_history,
                self.fill_history == old(self).fill_history,
                ps == old(self).positions@,
                forall|k: int|
                    0 <= k < ps.len() ==> pnl_ok(
                        (#[trigger] ps[k]).side,
                        ps[k].size,
                        ps[k].entry_price,
                        mark,
                    ),
                forall|k: int| 0 <= k < j ==> #[trigger] self.positions@[k] == revalued(ps[k], mark),
                forall|k: int| j <= k < ps.len() ==> #[trigger] self.positions@[k] == ps[k],
            decreases ps.len() - j,
        {
            let ghost before = self.positions@;
            let mut pos = self.positions.remove(j);
            pos.unrealized_pnl = calculate_pnl(pos.side, pos.size, pos.entry_price, mark);
            self.positions.insert(j, pos);
            proof {
                assert(before[j as int] == ps[j as int]);
                lemma_update_keeps_wf(before, j as int, self.positions@[j as int]);
                assert(self.positions@ =~= before.update(j as int, self.positions@[j as int]));
            }
            j = j + 1;
        }
    }
}

/// `p` with its unrealized profit valued at `mark`.
pub open spec fn revalued(p: Position, mark: Dec) -> Position {
    position_with(
        p,
        p.size,
        p.entry_price,
        p.margin,
        pnl_of(p.side, p.size, p.entry_price, mark),
        p.liquidation_price,
    )
}

/// Replacing a position by one with valid amounts in the same market keeps
/// the positions well formed.
pub(crate) proof fn lemma_update_keeps_wf(ps: Seq<Position>, i: int, q: Position)
    requires
        positions_wf(ps),
        0 <= i < ps.len(),
        q.wf(),
        q.market@ == ps[i].market@,
    ensures
        positions_wf(ps.update(i, q)),
{
    let qs = ps.update(i, q);
    assert forall|a: int, b: int| 0 <= a < b < qs.len() implies (#[trigger] qs[a]).market@ != (
    #[trigger] qs[b]).market@ by {
        assert(ps[a].market@ != ps[b].market@);
    }
}

/// Removing a position keeps the positions well formed.
pub(crate) proof fn lemma_remove_keeps_wf(ps: Seq<Position>, i: int)
    requires
        positions_wf(ps),
        0 <= i < ps.len(),
    ensures
        positions_wf(ps.remove(i)),
{
    let qs = ps.remove(i);
    assert forall|a: int, b: int| 0 <= a < b < qs.len() implies (#[trigger] qs[a]).market@ != (
    #[trigger] qs[b]).market@ by {
        let a2 = if a < i {
            a
        } else {
            a + 1
        };
        let b2 = if b < i {
            b
        } else {
            b + 1
        };
        assert(qs[a] == ps[a2]);
        assert(qs[b] == ps[b2]);
    }
}

/// Index of the position in market `market`, or the length when none.
pub(crate) fn find_position(ps: &Vec<Position>, market: &String) -> (r: usize)
    ensures
        r == position_index(ps@, market@),
{
    let mut i: usize = 0;
    while i < ps.len() && !(ps[i].market == *market)
        invariant
            0 <= i <= ps.len(),
            forall|j: int| 0 <= j < i ==> !in_market(market@)(#[trigger] ps@[j]),
        decreases ps.len() - i,
    {
        i = i + 1;
    }
    proof {
        lemma_first_index_unique(ps@, in_market(market@), i as int);
    }
    i
}

/// `calculate_pnl`, or `None` when it would overflow.
pub(crate) fn checked_pnl(side: OrderSide, size: Dec, entry: Dec, mark: Dec) -> (r: Option<Dec>)
    requires
        size.wf(),
        entry.wf(),
        mark.wf(),
    ensures
        r is Some == pnl_ok(side, size, entry, mark),
        r matches Some(x) ==> x == pnl_of(side, size, entry, mark) && x.wf(),
{
    let d = match side {
        OrderSide::Buy => dec_checked_sub(mark, entry),
        OrderSide::Sell => dec_checked_sub(entry, mark),
    };
    match d {
        Some(x) => dec_checked_mul(size, x),
        None => None,
    }
}

/// `calculate_liquidation_price`, or `None` when it would overflow or divide
/// by zero.
pub(crate) fn checked_liq_price(side: OrderSide, entry: Dec, leverage: u32) -> (r: Option<Dec>)
    requires
        entry.wf(),
    ensures
        r is Some == liq_ok(side, entry, leverage),
        r matches Some(x) ==> x == liq_price_of(side, entry, leverage) && x.wf(),
{
    let maint = Dec { mantissa: 500000000000000027755575615, scale: 28 };
    let one = Dec::one();
    let lev = Dec { mantissa: leverage as i128, scale: 0 };
    let q = match dec_checked_div(one, lev) {
        Some(x) => x,
        None => return None,
    };
    match side {
        OrderSide::Buy => {
            let a = match dec_checked_sub(one, q) {
                Some(x) => x,
                None => return None,
            };
            let b = match dec_checked_add(a, maint) {
                Some(x) => x,
                None => return None,
            };
            dec_checked_mul(entry, b)
        },
        OrderSide::Sell => {
            let a = match dec_checked_add(one, q) {
                Some(x) => x,
                None => return None,
            };
            let b = match dec_checked_sub(a, maint) {
                Some(x) => x,
                None => return None,
            };
            dec_checked_mul(entry, b)
        },
    }
}

impl UserAccount {
    /// Whether every position can be revalued at `mark` without overflow.
    pub fn pnl_all_ok(&self, mark: Dec) -> (r: bool)
        requires
            self.wf(),
            mark.wf(),
        ensures
            r == forall|j: int|
                0 <= j < self.positions@.len() ==> pnl_ok(
                    (#[trigger] self.positions@[j]).side,
                    self.positions@[j].size,
                    self.positions@[j].entry_price,
                    mark,
                ),
    {
        let mut j: usize = 0;
        while j < self.positions.len()
            invariant
                0 <= j <= self.positions@.len(),
                self.wf(),
                mark.wf(),
                forall|k: int|
                    0 <= k < j ==> pnl_ok(
                        (#[trigger] self.positions@[k]).side,
                        self.positions@[k].size,
                        self.positions@[k].entry_price,
                        mark,
                    ),
            decreases self.positions@.len() - j,
        {
            let p = &self.positions[j];
            proof {
                assert(self.positions@[j as int].wf());
            }
            match checked_pnl(p.side, p.size, p.entry_price, mark) {
                Some(_) => {},
                None => {
                    return false;
                },
            }
            j = j + 1;
        }
        true
    }

    /// Whether `apply_fill(fill, mark)` would complete without overflow or a
    /// division by zero (`apply_fill_ok`).
    pub fn apply_fill_checks(&self, fill: &FillEvent, mark: Dec) -> (r: bool)
        requires
            self.wf(),
            fill.price.wf(),
            fill.size.wf(),
            fill.margin_used.wf(),
            mark.wf(),
        ensures
            r == apply_fill_ok(*self, *fill, mark),
    {
        let market = String::from_str("BTC-PERP");
        let i = find_position(&self.positions, &market);
        proof {
            assert(market@ == fill_market());
        }
        if i >= self.positions.len() {
            return checked_liq_price(fill.side, fill.price, fill.leverage).is_some();
        }
        let p = &self.positions[i];
        proof {
            assert(self.positions@[i as int].wf());
        }
        if p.side == fill.side {
            let new_size = match dec_checked_add(p.size, fill.size) {
                Some(x) => x,
                None => return false,
            };
            let a = match dec_checked_mul(p.entry_price, p.size) {
                Some(x) => x,
                None => return false,
            };
            let b = match dec_checked_mul(fill.price, fill.size) {
                Some(x) => x,
                None => return false,
            };
            let total = match dec_checked_add(a, b) {
                Some(x) => x,
                None => return false,
            };
            let entry = match dec_checked_div(total, new_size) {
                Some(x) => x,
                None => return false,
            };
            if dec_checked_add(p.margin, fill.margin_used).is_none() {
                return false;
            }
            if checked_pnl(p.side, new_size, entry, mark).is_none() {
                return false;
            }
            checked_liq_price(p.side, entry, p.leverage).is_some()
        } else if p.size.le(&fill.size) {
            let pnl = match checked_pnl(p.side, p.size, p.entry_price, fill.price) {
                Some(x) => x,
                None => return false,
            };
            if dec_checked_add(self.balance, pnl).is_none() {
                return false;
            }
            let mp = match dec_checked_add(p.margin, pnl) {
                Some(x) => x,
                None => return false,
            };
            if dec_checked_add(self.available_balance, mp).is_none() {
                return false;
            }
            let rem = match dec_checked_sub(fill.size, p.size) {
                Some(x) => x,
                None => return false,
            };
            if rem.is_positive() {
                let share = match dec_checked_div(rem, fill.size) {
                    Some(x) => x,
                    None => return false,
                };
                if dec_checked_mul(fill.margin_used, share).is_none() {
                    return false;
                }
                checked_liq_price(fill.side, fill.price, fill.leverage).is_some()
            } else {
                true
            }
        } else {
            let pnl = match checked_pnl(p.side, fill.size, p.entry_price, fill.price) {
                Some(x) => x,
                None => return false,
            };
            if dec_checked_add(self.balance, pnl).is_none() {
                return false;
            }
            let mp = match dec_checked_add(fill.margin_used, pnl) {
                Some(x) => x,
                None => return false,
            };
            if dec_checked_add(self.available_balance, mp).is_none() {
                return false;
            }
            let size = match dec_checked_sub(p.size, fill.size) {
                Some(x) => x,
                None => return false,
            };
            if dec_checked_sub(p.margin, fill.margin_used).is_none() {
                return false;
            }
            checked_pnl(p.side, size, p.entry_price, mark).is_some()
        }
    }

    /// `apply_fill` where the arithmetic may overflow: returns whether it
    /// completed (`apply_fill_ok`); the account is unchanged when it did not.
    pub fn try_apply_fill(&mut self, fill: &FillEvent, mark: Dec) -> (r: bool)
        requires
            old(self).wf(),
            fill.price.wf(),
            fill.size.wf(),
            fill.margin_used.wf(),
            mark.wf(),
        ensures
            final(self).wf(),
            r == apply_fill_ok(*old(self), *fill, mark),
            r ==> apply_fill_post(*old(self), *final(self), *fill, mark)
                && final(self).fill_history@.len() == old(self).fill_history@.len() + 1
                && final(self).fill_history@.drop_last() == old(self).fill_history@
                && final(self).fill_history@.last().side == fill.side
                && final(self).fill_history@.last().price == fill.price
                && final(self).fill_history@.last().size == fill.size
                && final(self).fill_history@.last().pnl == final(self).balance,
            !r ==> *final(self) == *old(self),
    {
        if self.apply_fill_checks(fill, mark) {
            self.apply_fill(fill, mark);
            true
        } else {
            false
        }
    }
}

/// Profit of a position of `size` entered at `entry`, valued at `mark`.
pub fn calculate_pnl(side: OrderSide, size: Dec, entry: Dec, mark: Dec) -> (r: Dec)
    requires
        size.wf(),
        entry.wf(),
        mark.wf(),
        pnl_ok(side, size, entry, mark),
    ensures
        r == pnl_of(side, size, entry, mark),
        r.wf(),
{
    match side {
        OrderSide::Buy => size.times(mark.minus(entry)),
        OrderSide::Sell => size.times(entry.minus(mark)),
    }
}

/// Liquidation price of a position entered at `entry` with `leverage`.
pub fn calculate_liquidation_price(side: OrderSide, entry: Dec, leverage: u32) -> (r: Dec)
    requires
        entry.wf(),
        liq_ok(side, entry, leverage),
    ensures
        r == liq_price_of(side, entry, leverage),
        r.wf(),
{
    let maint = Dec { mantissa: 500000000000000027755575615, scale: 28 };
    let one = Dec::one();
    let lev = Dec { mantissa: leverage as i128, scale: 0 };
    let q = one.divided_by(lev);
    match side {
        OrderSide::Buy => entry.times(one.minus(q).plus(maint)),
        OrderSide::Sell => entry.times(one.plus(q).minus(maint)),
    }
}

/// The Bitcoin base58 alphabet.
pub open spec fn base58_alphabet() -> Seq<char> {
    "123456789ABCDEFGHJKLMNPQRSTUVWXYZabcdefghijkmnopqrstuvwxyz"@
}

/// The bytes as one big-endian number.
pub open spec fn big_endian_value(b: Seq<u8>) -> nat
    decreases b.len(),
{
    if b.len() == 0 {
        0
    } else {
        big_endian_value(b.drop_last()) * 256 + b.last() as nat
    }
}

/// `n` in base 58, most significant digit first, without leading zeros.
pub open spec fn base58_digits(n: nat) -> Seq<char>
    decreases n,
{
    if n == 0 {
        seq![]
    } else {
        base58_digits(n / 58).push(base58_alphabet()[(n % 58) as int])
    }
}

/// The byte is not zero.
pub open spec fn nonzero_byte() -> spec_fn(u8) -> bool {
    |x: u8| x != 0
}

/// Base58 text of `b` (Bitcoin alphabet): one `'1'` per leading zero byte,
/// then the digits of the big-endian value.
pub open spec fn base58(b: Seq<u8>) -> Seq<char> {
    Seq::new(first_index(b, nonzero_byte()), |i: int| '1') + base58_digits(big_endian_value(b))
}

/// One random byte, from `rand::random` (the thread-local generator).
/// Nothing is claimed of its value.
#[verifier::external_body]
fn random_byte() -> (r: u8) {
    rand::random::<u8>()
}

/// `bs58::encode(bytes).into_string()`: the base58 text of the bytes.
#[verifier::external_body]
fn base58_encode(bytes: &Vec<u8>) -> (r: String)
    ensures
        r@ == base58(bytes@),
{
    bs58::encode(bytes).into_string()
}

/// A fresh account key: 32 random bytes in base58.
pub fn generate_pubkey() -> (r: String)
    ensures
        exists|b: Seq<u8>| b.len() == 32 && r@ == base58(b),
{
    let mut bytes: Vec<u8> = Vec::new();
    let mut k: usize = 0;
    while k < 32
        invariant
            0 <= k <= 32,
            bytes@.len() == k,
        decreases 32 - k,
    {
        bytes.push(random_byte());
        k = k + 1;
    }
    let r = base58_encode(&bytes);
    proof {
        assert(bytes@.len() == 32 && r@ == base58(bytes@));
    }
    r
}

} // verus!
