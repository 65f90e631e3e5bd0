//! Liquidating positions whose margin no longer covers the maintenance rate.
//!
//! A position is liquidated when its margin ratio, `(margin + unrealized
//! profit) / (size * mark)`, falls below the maintenance rate: it is closed by
//! a market order on the other side, the fills are booked to the account, and
//! a penalty of one percent of the position's margin is charged.
use vstd::prelude::*;
use crate::decimal::{
    Dec, add_ok, div_ok, mul_ok, sub_ok, dsum, dprod, dquot, ddiff, dec_checked_add,
    dec_checked_mul, dec_checked_div, dec_checked_sub,
};
use crate::matcher::{FillEvent, fills_wf, match_result, same_fills, try_match_order};
use crate::orderbook::{Order, OrderBook, OrderIds, OrderSide, OrderType, opposite};
use crate::user::{
    Position, UserAccount, apply_fill_ok, apply_fill_post, find_position, lemma_remove_keeps_wf,
    maint_rate, pnl_ok, position_index, positions_wf, revalued,
};

verus! {

/// The liquidation engine's setting: the maintenance margin rate.
pub struct Liquidator {
    pub maintenance_margin: Dec,
}

impl Liquidator {
    /// A liquidator whose maintenance rate is `Decimal::from_f64_retain(0.05)`.
    pub fn new() -> (r: Liquidator)
        ensures
            r.maintenance_margin == maint_rate(),
            r.maintenance_margin.wf(),
    {
        Liquidator { maintenance_margin: Dec { mantissa: 500000000000000027755575615, scale: 28 } }
    }
}

/// The penalty rate charged on the margin of a liquidated position: the
/// decimal that `Decimal::from_f64_retain(0.01)` gives.
pub open spec fn penalty_rate() -> Dec {
    Dec { mantissa: 100000000000000002081668171, scale: 28 }
}

/// Margin ratio of `p` at `mark`: `(margin + unrealized profit) / (size * mark)`.
pub open spec fn margin_ratio_of(p: Position, mark: Dec) -> Dec {
    dquot(dsum(p.margin, p.unrealized_pnl), dprod(p.size, mark))
}

/// The margin ratio of `p` at `mark` neither overflows nor divides by zero.
pub open spec fn ratio_ok(p: Position, mark: Dec) -> bool {
    &&& mul_ok(p.size, mark)
    &&& add_ok(p.margin, p.unrealized_pnl)
    &&& div_ok(dsum(p.margin, p.unrealized_pnl), dprod(p.size, mark))
}

/// The margin ratio of `p` at `mark` is below the maintenance rate `maint`.
pub open spec fn below_maintenance(p: Position, mark: Dec, maint: Dec) -> bool {
    margin_ratio_of(p, mark).val() < maint.val()
}

/// The markets of the positions below maintenance, in the order of `ps`.
pub open spec fn liquidation_list(ps: Seq<Position>, mark: Dec, maint: Dec) -> Seq<Seq<char>>
    decreases ps.len(),
{
    if ps.len() == 0 {
        seq![]
    } else {
        let r = liquidation_list(ps.drop_last(), mark, maint);
        if below_maintenance(ps.last(), mark, maint) {
            r.push(ps.last().market@)
        } else {
            r
        }
    }
}

/// No more markets are listed than there are positions.
pub proof fn lemma_liquidation_list_len(ps: Seq<Position>, mark: Dec, maint: Dec)
    ensures
        liquidation_list(ps, mark, maint).len() <= ps.len(),
    decreases ps.len(),
{
    if ps.len() > 0 {
        lemma_liquidation_list_len(ps.drop_last(), mark, maint);
    }
}

/// Every listed market is that of a position below maintenance, and every
/// position below maintenance has its market listed.
proof fn lemma_liquidation_list_members(ps: Seq<Position>, mark: Dec, maint: Dec)
    ensures
        forall|k: int|
            #![trigger liquidation_list(ps, mark, maint)[k]]
            0 <= k < liquidation_list(ps, mark, maint).len() ==> exists|j: int|
                0 <= j < ps.len() && liquidation_list(ps, mark, maint)[k] == (#[trigger] ps[j]).market@
                    && below_maintenance(ps[j], mark, maint),
        forall|j: int|
            0 <= j < ps.len() && below_maintenance(#[trigger] ps[j], mark, maint) ==> liquidation_list(
                ps,
                mark,
                maint,
            ).contains(ps[j].market@),
    decreases ps.len(),
{
    if ps.len() > 0 {
        let rest = ps.drop_last();
        lemma_liquidation_list_members(rest, mark, maint);
        let r = liquidation_list(rest, mark, maint);
        let l = liquidation_list(ps, mark, maint);
        assert forall|k: int| #![trigger l[k]] 0 <= k < l.len() implies exists|j: int|
            0 <= j < ps.len() && l[k] == (#[trigger] ps[j]).market@ && below_maintenance(ps[j], mark, maint) by {
            if k < r.len() {
                assert(l[k] == r[k]);
                let j = choose|j: int|
                    0 <= j < rest.len() && r[k] == (#[trigger] rest[j]).market@ && below_maintenance(
                        rest[j],
                        mark,
                        maint,
                    );
                assert(rest[j] == ps[j]);
                assert(l[k] == ps[j].market@ && below_maintenance(ps[j], mark, maint));
            } else {
                assert(l[k] == ps[ps.len() - 1].market@);
                assert(below_maintenance(ps[ps.len() - 1], mark, maint));
            }
        }
        assert forall|j: int| 0 <= j < ps.len() && below_maintenance(#[trigger] ps[j], mark, maint) implies l.contains(
            ps[j].market@,
        ) by {
            if j < ps.len() - 1 {
                assert(rest[j] == ps[j]);
                let k = choose|k: int| 0 <= k < r.len() && r[k] == rest[j].market@;
                assert(l[k] == r[k]);
            } else {
                assert(l[l.len() - 1] == ps[j].market@);
            }
        }
    } else {
        assert(liquidation_list(ps, mark, maint).len() == 0);
    }
}

/// The markets a liquidation pass goes through, given the positions `ps`
/// (one per market) as revalued at `mark`, are exactly those of the positions, long or
/// short alike, whose margin ratio `(margin + unrealized profit) / (size *
/// mark)`, computed as decimals, is below the maintenance rate `maint`.
pub proof fn law_every_position_below_maintenance_is_listed(ps: Seq<Position>, mark: Dec, maint: Dec)
    requires
        forall|a: int, c: int| 0 <= a < c < ps.len() ==> (#[trigger] ps[a]).market@ != (#[trigger] ps[c]).market@,
    ensures
        forall|j: int|
            0 <= j < ps.len() ==> (liquidation_list(ps, mark, maint).contains(#[trigger] ps[j].market@)
                <==> dquot(dsum(ps[j].margin, ps[j].unrealized_pnl), dprod(ps[j].size, mark)).val()
                < maint.val()),
        forall|k: int|
            #![trigger liquidation_list(ps, mark, maint)[k]]
            0 <= k < liquidation_list(ps, mark, maint).len() ==> exists|j: int|
                0 <= j < ps.len() && liquidation_list(ps, mark, maint)[k] == (#[trigger] ps[j]).market@,
{
    lemma_liquidation_list_members(ps, mark, maint);
    let l = liquidation_list(ps, mark, maint);
    assert forall|j: int| 0 <= j < ps.len() implies (l.contains(#[trigger] ps[j].market@) <==> dquot(
        dsum(ps[j].margin, ps[j].unrealized_pnl),
        dprod(ps[j].size, mark),
    ).val() < maint.val()) by {
        if l.contains(ps[j].market@) {
            let k = choose|k: int| 0 <= k < l.len() && l[k] == ps[j].market@;
            let j2 = choose|j2: int|
                0 <= j2 < ps.len() && l[k] == (#[trigger] ps[j2]).market@ && below_maintenance(ps[j2], mark, maint);
            if j2 != j {
                if j < j2 {
                    assert(ps[j].market@ != ps[j2].market@);
                } else {
                    assert(ps[j2].market@ != ps[j].market@);
                }
            }
        }
    }
}

/// In a liquidation pass over account `u`, the markets liquidated in turn
/// are exactly those of `u`'s positions, long or short, whose margin ratio
/// once revalued at `mark` (the unrealized profit `size * (mark - entry)`
/// long, `size * (entry - mark)` short) is below the maintenance rate.
pub proof fn law_pass_liquidates_below_maintenance(
    u: UserAccount,
    b: OrderBook,
    id: u64,
    mark: Dec,
    maint: Dec,
    v: UserAccount,
    b2: OrderBook,
    id2: u64,
    u1: UserAccount,
    tr: Seq<LiqState>,
)
    requires
        u.wf(),
        liquidated_via(u, b, id, mark, maint, v, b2, id2, u1, tr),
    ensures
        exists|ms: Seq<Seq<char>>|
            #[trigger] liquidation_run(tr, ms, mark) && forall|j: int|
                0 <= j < u.positions@.len() ==> (ms.contains(#[trigger] u.positions@[j].market@) <==> {
                    let p = u.positions@[j];
                    let pnl = match p.side {
                        OrderSide::Buy => dprod(p.size, ddiff(mark, p.entry_price)),
                        OrderSide::Sell => dprod(p.size, ddiff(p.entry_price, mark)),
                    };
                    dquot(dsum(p.margin, pnl), dprod(p.size, mark)).val() < maint.val()
                }),
{
    let ps = u.positions@;
    let qs = u1.positions@;
    let ms = liquidation_list(qs, mark, maint);
    assert(qs.len() == ps.len());
    assert forall|a: int, c: int| 0 <= a < c < qs.len() implies (#[trigger] qs[a]).market@ != (
    #[trigger] qs[c]).market@ by {
        assert(qs[a] == revalued(ps[a], mark));
        assert(qs[c] == revalued(ps[c], mark));
    }
    law_every_position_below_maintenance_is_listed(qs, mark, maint);
    assert forall|j: int| 0 <= j < ps.len() implies (ms.contains(#[trigger] ps[j].market@) <==> {
        let p = ps[j];
        let pnl = match p.side {
            OrderSide::Buy => dprod(p.size, ddiff(mark, p.entry_price)),
            OrderSide::Sell => dprod(p.size, ddiff(p.entry_price, mark)),
        };
        dquot(dsum(p.margin, pnl), dprod(p.size, mark)).val() < maint.val()
    }) by {
        assert(qs[j] == revalued(ps[j], mark));
        assert(qs[j].market@ == ps[j].market@);
    }
}

/// `o` is the order that closes `p` at market for `user`: the other side,
/// `p`'s size and leverage, priced at `mark`, with identifier `id`.
pub open spec fn closes(o: Order, id: u64, user: Seq<char>, p: Position, mark: Dec) -> bool {
    &&& o.id == id
    &&& o.user@ == user
    &&& o.side == opposite(p.side)
    &&& o.order_type == OrderType::Market
    &&& o.price == mark
    &&& o.size == p.size
    &&& o.remaining == p.size
    &&& o.leverage == p.leverage
}

/// `w` is the account `u` without its position at index `i`.
pub open spec fn without_position(u: UserAccount, w: UserAccount, i: int) -> bool {
    &&& w.pubkey == u.pubkey
    &&& w.balance == u.balance
    &&& w.available_balance == u.available_balance
    &&& w.positions@ == u.positions@.remove(i)
    &&& w.order_history == u.order_history
    &&& w.fill_history == u.fill_history
}

/// `v` is the account `u` after booking fill `f` at `mark`, the fill recorded
/// in the history with the balance after it.
pub open spec fn fill_booked(u: UserAccount, v: UserAccount, f: FillEvent, mark: Dec) -> bool {
    &&& apply_fill_post(u, v, f, mark)
    &&& v.fill_history@.len() == u.fill_history@.len() + 1
    &&& v.fill_history@.drop_last() == u.fill_history@
    &&& v.fill_history@.last().side == f.side
    &&& v.fill_history@.last().price == f.price
    &&& v.fill_history@.last().size == f.size
    &&& v.fill_history@.last().pnl == v.balance
}

/// `us` are the accounts in turn as the fills `fs` are booked one by one.
pub open spec fn booked_trace(us: Seq<UserAccount>, fs: Seq<FillEvent>, mark: Dec) -> bool {
    &&& us.len() == fs.len() + 1
    &&& forall|k: int| 0 <= k < fs.len() ==> fill_booked(#[trigger] us[k], us[k + 1], fs[k], mark)
}

/// The penalty on position `p` can be charged to account `x` without
/// overflow.
pub open spec fn penalty_ok(x: UserAccount, p: Position) -> bool {
    let pen = dprod(p.margin, penalty_rate());
    &&& mul_ok(p.margin, penalty_rate())
    &&& sub_ok(x.balance, pen)
    &&& sub_ok(x.available_balance, pen)
}

/// `v` is account `x` with `pen` taken off both balances.
pub open spec fn penalized(x: UserAccount, v: UserAccount, pen: Dec) -> bool {
    &&& v.pubkey == x.pubkey
    &&& v.balance == ddiff(x.balance, pen)
    &&& v.available_balance == ddiff(x.available_balance, pen)
    &&& v.positions == x.positions
    &&& v.order_history == x.order_history
    &&& v.fill_history == x.fill_history
}

/// Liquidating the position of account `u` in `market` against book `b`
/// (next order identifier `id`) gives `v`, `b2` and `id2`, by way of the
/// closing order `o`, its fills `fs` and the accounts `us` as they are
/// booked: the position is removed, `o` is matched against the side of the
/// position's own direction (a market order never rests), every fill is
/// booked at `mark`, and the penalty is taken off both balances.
pub open spec fn step_via(
    u: UserAccount,
    b: OrderBook,
    id: u64,
    market: Seq<char>,
    mark: Dec,
    v: UserAccount,
    b2: OrderBook,
    id2: u64,
    o: Order,
    us: Seq<UserAccount>,
    fs: Seq<FillEvent>,
) -> bool {
    let i = position_index(u.positions@, market) as int;
    let p = u.positions@[i];
    let m = match_result(b.side(p.side), o);
    &&& closes(o, id, u.pubkey@, p, mark)
    &&& id2 == id + 1
    &&& m.3
    &&& b2.side(p.side) == m.0
    &&& b2.side(opposite(p.side)) == b.side(opposite(p.side))
    &&& same_fills(fs, m.1)
    &&& booked_trace(us, fs, mark)
    &&& without_position(u, us[0], i)
    &&& penalty_ok(us.last(), p)
    &&& penalized(us.last(), v, dprod(p.margin, penalty_rate()))
}

/// Liquidating the position `p` of a market closes it at market: the
/// position is taken out of the account, a market order of the other side
/// for `p`'s whole size, placed as the trader's, is matched against the
/// book side of `p`'s own direction, each of its fills is booked in turn,
/// and then one percent of `p`'s margin (`Decimal::from_f64_retain(0.01)`)
/// is taken off both the balance and the available balance.
pub proof fn law_liquidation_closes_at_market_with_penalty(
    u: UserAccount,
    b: OrderBook,
    id: u64,
    market: Seq<char>,
    mark: Dec,
    v: UserAccount,
    b2: OrderBook,
    id2: u64,
    o: Order,
    us: Seq<UserAccount>,
    fs: Seq<FillEvent>,
)
    requires
        step_via(u, b, id, market, mark, v, b2, id2, o, us, fs),
    ensures
        ({
            let i = position_index(u.positions@, market) as int;
            let p = u.positions@[i];
            let pen = dprod(p.margin, Dec { mantissa: 100000000000000002081668171, scale: 28 });
            &&& o.side != p.side
            &&& o.order_type == OrderType::Market
            &&& o.size == p.size
            &&& o.remaining == p.size
            &&& o.user@ == u.pubkey@
            &&& us[0].positions@ == u.positions@.remove(i)
            &&& us[0].balance == u.balance
            &&& fs.len() == match_result(b.side(p.side), o).1.len()
            &&& fs.len() + 1 == us.len()
            &&& v.balance == ddiff(us.last().balance, pen)
            &&& v.available_balance == ddiff(us.last().available_balance, pen)
            &&& v.positions == us.last().positions
        }),
{
    let i = position_index(u.positions@, market) as int;
    let p = u.positions@[i];
    assert(o.side == opposite(p.side));
}

/// One liquidation: with no position in `market` nothing changes; otherwise
/// the position is closed as `step_via` says.
pub open spec fn liquidation_step(
    u: UserAccount,
    b: OrderBook,
    id: u64,
    market: Seq<char>,
    mark: Dec,
    v: UserAccount,
    b2: OrderBook,
    id2: u64,
) -> bool {
    if position_index(u.positions@, market) >= u.positions@.len() {
        v == u && b2 == b && id2 == id
    } else {
        exists|o: Order, us: Seq<UserAccount>, fs: Seq<FillEvent>|
            #[trigger] step_via(u, b, id, market, mark, v, b2, id2, o, us, fs)
    }
}

/// Liquidating the position of `u` in `market` overflows, by way of the
/// closing order `o`: matching it overflows, or the fills `fs` have been
/// booked up to the `k`-th (accounts `us`) and booking the next one, or the
/// penalty after the last, overflows.
pub open spec fn fails_via(
    u: UserAccount,
    b: OrderBook,
    id: u64,
    market: Seq<char>,
    mark: Dec,
    o: Order,
    us: Seq<UserAccount>,
    fs: Seq<FillEvent>,
    k: int,
) -> bool {
    let i = position_index(u.positions@, market) as int;
    let p = u.positions@[i];
    let m = match_result(b.side(p.side), o);
    &&& i < u.positions@.len()
    &&& closes(o, id, u.pubkey@, p, mark)
    &&& {
        ||| !m.3
        ||| {
            &&& same_fills(fs, m.1)
            &&& 0 <= k <= fs.len()
            &&& booked_trace(us, fs.take(k), mark)
            &&& without_position(u, us[0], i)
            &&& if k < fs.len() {
                !apply_fill_ok(us[k], fs[k], mark)
            } else {
                !penalty_ok(us[k], p)
            }
        }
    }
}

/// Liquidating the position of `u` in `market` overflows somewhere.
pub open spec fn step_fails(u: UserAccount, b: OrderBook, id: u64, market: Seq<char>, mark: Dec) -> bool {
    exists|o: Order, us: Seq<UserAccount>, fs: Seq<FillEvent>, k: int|
        #[trigger] fails_via(u, b, id, market, mark, o, us, fs, k)
}

/// A state of the liquidation: the account, the book and the next order
/// identifier.
pub type LiqState = (UserAccount, OrderBook, u64);

/// `tr` are the states in turn as the markets `ms` are liquidated one by one.
pub open spec fn liquidation_run(tr: Seq<LiqState>, ms: Seq<Seq<char>>, mark: Dec) -> bool {
    &&& tr.len() == ms.len() + 1
    &&& forall|k: int|
        0 <= k < ms.len() ==> liquidation_step(
            (#[trigger] tr[k]).0,
            tr[k].1,
            tr[k].2,
            ms[k],
            mark,
            tr[k + 1].0,
            tr[k + 1].1,
            tr[k + 1].2,
        )
}

/// Liquidating the markets `ms` from state `s`: the first `k` go through
/// (states `tr`) and the next one overflows.
pub open spec fn run_fails_at(s: LiqState, ms: Seq<Seq<char>>, mark: Dec, tr: Seq<LiqState>, k: int) -> bool {
    &&& 0 <= k < ms.len()
    &&& tr[0] == s
    &&& liquidation_run(tr, ms.take(k), mark)
    &&& step_fails(tr[k].0, tr[k].1, tr[k].2, ms[k], mark)
}

/// `v` is account `u` with every position revalued at `mark`.
pub open spec fn revalued_account(u: UserAccount, v: UserAccount, mark: Dec) -> bool {
    &&& v.pubkey == u.pubkey
    &&& v.balance == u.balance
    &&& v.available_balance == u.available_balance
    &&& v.positions@ == u.positions@.map_values(|p: Position| revalued(p, mark))
    &&& v.order_history == u.order_history
    &&& v.fill_history == u.fill_history
}

/// Every position of `u` can be revalued at `mark` without overflow.
pub open spec fn revalue_ok(u: UserAccount, mark: Dec) -> bool {
    forall|j: int|
        0 <= j < u.positions@.len() ==> pnl_ok(
            (#[trigger] u.positions@[j]).side,
            u.positions@[j].size,
            u.positions@[j].entry_price,
            mark,
        )
}

/// Every margin ratio of `u` at `mark` can be computed.
pub open spec fn ratios_ok(u: UserAccount, mark: Dec) -> bool {
    forall|j: int| 0 <= j < u.positions@.len() ==> ratio_ok(#[trigger] u.positions@[j], mark)
}

/// A liquidation pass over account `u` and book `b` (next identifier `id`)
/// ends in `v`, `b2`, `id2`, by way of the revalued account `u1` and the
/// states `tr`: every position is revalued at `mark`, the markets whose
/// positions are then below `maint` are listed in order, and each is
/// liquidated in turn.
pub open spec fn liquidated_via(
    u: UserAccount,
    b: OrderBook,
    id: u64,
    mark: Dec,
    maint: Dec,
    v: UserAccount,
    b2: OrderBook,
    id2: u64,
    u1: UserAccount,
    tr: Seq<LiqState>,
) -> bool {
    &&& revalued_account(u, u1, mark)
    &&& ratios_ok(u1, mark)
    &&& tr[0] == (u1, b, id)
    &&& liquidation_run(tr, liquidation_list(u1.positions@, mark, maint), mark)
    &&& tr.last() == (v, b2, id2)
}

/// A liquidation pass over `u` overflows: revaluing a position, computing a
/// margin ratio, or one of the liquidations.
pub open spec fn liquidation_fails(u: UserAccount, b: OrderBook, id: u64, mark: Dec, maint: Dec) -> bool {
    ||| !revalue_ok(u, mark)
    ||| exists|u1: UserAccount|
        #[trigger] revalued_account(u, u1, mark) && (!ratios_ok(u1, mark) || exists|
            tr: Seq<LiqState>,
            k: int,
        |
            #[trigger] run_fails_at(
                (u1, b, id),
                liquidation_list(u1.positions@, mark, maint),
                mark,
                tr,
                k,
            ))
}

/// The margin ratio of `p` at `mark`, or `None` when it cannot be computed.
pub fn margin_ratio(p: &Position, mark: Dec) -> (r: Option<Dec>)
    requires
        p.wf(),
        mark.wf(),
    ensures
        r is Some == ratio_ok(*p, mark),
        r matches Some(x) ==> x == margin_ratio_of(*p, mark) && x.wf(),
{
    let notional = match dec_checked_mul(p.size, mark) {
        Some(x) => x,
        None => return None,
    };
    let equity = match dec_checked_add(p.margin, p.unrealized_pnl) {
        Some(x) => x,
        None => return None,
    };
    dec_checked_div(equity, notional)
}

/// The markets of the positions `ps` whose margin ratio at `mark` is below
/// `maint`, in order; `None` when a ratio cannot be computed.
pub fn liquidation_candidates(ps: &Vec<Position>, mark: Dec, maint: Dec) -> (r: Option<Vec<String>>)
    requires
        positions_wf(ps@),
        mark.wf(),
        maint.wf(),
    ensures
        r is Some == forall|j: int| 0 <= j < ps@.len() ==> ratio_ok(#[trigger] ps@[j], mark),
        r matches Some(v) ==> v@.len() == liquidation_list(ps@, mark, maint).len() && forall|k: int|
            0 <= k < v@.len() ==> (#[trigger] v@[k])@ == liquidation_list(ps@, mark, maint)[k],
{
    let mut out: Vec<String> = Vec::new();
    let mut j: usize = 0;
    while j < ps.len()
        invariant
            0 <= j <= ps@.len(),
            positions_wf(ps@),
            mark.wf(),
            maint.wf(),
            forall|k: int| 0 <= k < j ==> ratio_ok(#[trigger] ps@[k], mark),
            out@.len() == liquidation_list(ps@.take(j as int), mark, maint).len(),
            forall|k: int|
                0 <= k < out@.len() ==> (#[trigger] out@[k])@ == liquidation_list(
                    ps@.take(j as int),
                    mark,
                    maint,
                )[k],
        decreases ps@.len() - j,
    {
        let p = &ps[j];
        proof {
            assert(ps@[j as int].wf());
            assert(ps@.take(j as int + 1).drop_last() =~= ps@.take(j as int));
            assert(ps@.take(j as int + 1).last() == ps@[j as int]);
        }
        let ratio = match margin_ratio(p, mark) {
            Some(x) => x,
            None => return None,
        };
        if ratio.lt(&maint) {
            out.push(p.market.clone());
        }
        j = j + 1;
    }
    proof {
        assert(ps@.take(j as int) =~= ps@);
    }
    Some(out)
}

/// Liquidates the position of `user` in `market`, if there is one: it is
/// removed, closed by a market order on the other side (its size and
/// leverage, priced at `mark`, the next identifier of `ids`) matched against
/// `book`, every fill is booked at `mark`, and one percent of its margin is
/// taken off both balances.  Returns `false` when that overflows (see
/// `step_fails`); the account and book are then left part way.
#[verifier::loop_isolation(false)]
pub fn liquidate_position(
    user: &mut UserAccount,
    market: &String,
    mark: Dec,
    book: &mut OrderBook,
    ids: &mut OrderIds,
) -> (r: bool)
    requires
        old(user).wf(),
        old(book).wf(),
        mark.wf(),
        old(ids).next < u64::MAX,
    ensures
        final(user).wf(),
        final(book).wf(),
        final(ids).next <= old(ids).next + 1,
        r ==> liquidation_step(
            *old(user),
            *old(book),
            old(ids).next,
            market@,
            mark,
            *final(user),
            *final(book),
            final(ids).next,
        ),
        !r ==> step_fails(*old(user), *old(book), old(ids).next, market@, mark),
{
    let i = find_position(&user.positions, market);
    if i >= user.positions.len() {
        return true;
    }
    let ghost u0 = *user;
    let ghost b0 = *book;
    let ghost id0 = ids.next;
    let pos = user.positions.remove(i);
    proof {
        lemma_remove_keeps_wf(u0.positions@, i as int);
        assert(pos.wf());
    }
    let ghost w = *user;
    let close_side = match pos.side {
        OrderSide::Buy => OrderSide::Sell,
        OrderSide::Sell => OrderSide::Buy,
    };
    let order = Order::new(
        ids,
        user.pubkey.clone(),
        close_side,
        OrderType::Market,
        mark,
        pos.size,
        pos.leverage,
    );
    let ghost o = order;
    proof {
        assert(closes(o, id0, u0.pubkey@, pos, mark));
        assert(opposite(o.side) == pos.side);
    }
    let fills = match try_match_order(book, order) {
        Some(f) => f,
        None => {
            proof {
                assert(fails_via(u0, b0, id0, market@, mark, o, seq![w], seq![], 0));
            }
            return false;
        },
    };
    let ghost m = match_result(b0.side(pos.side), o);
    let ghost mut us: Seq<UserAccount> = seq![w];
    let mut k: usize = 0;
    while k < fills.len()
        invariant
            0 <= k <= fills@.len(),
            us.len() == k + 1,
            us[0] == w,
            us.last() == *user,
            user.wf(),
            booked_trace(us, fills@.take(k as int), mark),
        decreases fills@.len() - k,
    {
        proof {
            assert(fills@[k as int].price.wf());
        }
        let ok = user.try_apply_fill(&fills[k], mark);
        if !ok {
            proof {
                assert(fails_via(u0, b0, id0, market@, mark, o, us, fills@, k as int));
            }
            return false;
        }
        proof {
            let us2 = us.push(*user);
            let fs2 = fills@.take(k as int + 1);
            assert forall|q: int| 0 <= q < fs2.len() implies fill_booked(
                #[trigger] us2[q],
                us2[q + 1],
                fs2[q],
                mark,
            ) by {
                if q < k {
                    assert(fills@.take(k as int)[q] == fs2[q]);
                    assert(us[q] == us2[q]);
                    assert(us[q + 1] == us2[q + 1]);
                }
            }
            us = us2;
        }
        k = k + 1;
    }
    proof {
        assert(fills@.take(k as int) =~= fills@);
    }
    let pen = match dec_checked_mul(pos.margin, Dec { mantissa: 100000000000000002081668171, scale: 28 }) {
        Some(x) => x,
        None => {
            proof {
                assert(fails_via(u0, b0, id0, market@, mark, o, us, fills@, k as int));
            }
            return false;
        },
    };
    let nb = match dec_checked_sub(user.balance, pen) {
        Some(x) => x,
        None => {
            proof {
                assert(fails_via(u0, b0, id0, market@, mark, o, us, fills@, k as int));
            }
            return false;
        },
    };
    let na = match dec_checked_sub(user.available_balance, pen) {
        Some(x) => x,
        None => {
            proof {
                assert(fails_via(u0, b0, id0, market@, mark, o, us, fills@, k as int));
            }
            return false;
        },
    };
    user.balance = nb;
    user.available_balance = na;
    proof {
        assert(step_via(u0, b0, id0, market@, mark, *user, *book, ids.next, o, us, fills@));
    }
    true
}

/// One liquidation pass over `user` at `mark_price`: every position is
/// revalued, the markets whose positions are then below
/// `maintenance_margin` are listed in order, and each is liquidated in turn
/// (`liquidate_position`).  Returns `false` when that overflows (see
/// `liquidation_fails`); the account and book are then left part way.
#[verifier::loop_isolation(false)]
pub fn check_liquidations(
    maintenance_margin: Dec,
    user: &mut UserAccount,
    mark_price: Dec,
    orderbook: &mut OrderBook,
    ids: &mut OrderIds,
) -> (r: bool)
    requires
        old(user).wf(),
        old(orderbook).wf(),
        mark_price.wf(),
        maintenance_margin.wf(),
        old(ids).next + old(user).positions@.len() < u64::MAX,
    ensures
        final(user).wf(),
        final(orderbook).wf(),
        r ==> exists|u1: UserAccount, tr: Seq<LiqState>|
            #[trigger] liquidated_via(
                *old(user),
                *old(orderbook),
                old(ids).next,
                mark_price,
                maintenance_margin,
                *final(user),
                *final(orderbook),
                final(ids).next,
                u1,
                tr,
            ),
        !r ==> liquidation_fails(
            *old(user),
            *old(orderbook),
            old(ids).next,
            mark_price,
            maintenance_margin,
        ),
{
    let ghost u0 = *user;
    let ghost b0 = *orderbook;
    let ghost id0 = ids.next;
    if !user.pnl_all_ok(mark_price) {
        return false;
    }
    user.update_unrealized_pnl(mark_price);
    let ghost u1 = *user;
    proof {
        assert(u1.positions@ =~= u0.positions@.map_values(|p: Position| revalued(p, mark_price)));
        assert(revalued_account(u0, u1, mark_price));
    }
    let markets = match liquidation_candidates(&user.positions, mark_price, maintenance_margin) {
        Some(v) => v,
        None => {
            return false;
        },
    };
    let ghost ms = liquidation_list(u1.positions@, mark_price, maintenance_margin);
    proof {
        lemma_liquidation_list_len(u1.positions@, mark_price, maintenance_margin);
    }
    let ghost mut tr: Seq<LiqState> = seq![(u1, b0, id0)];
    let mut k: usize = 0;
    while k < markets.len()
        invariant
            0 <= k <= markets@.len(),
            markets@.len() == ms.len(),
            tr.len() == k + 1,
            tr[0] == (u1, b0, id0),
            tr.last() == (*user, *orderbook, ids.next),
            liquidation_run(tr, ms.take(k as int), mark_price),
            user.wf(),
            orderbook.wf(),
            ids.next <= id0 + k,
        decreases markets@.len() - k,
    {
        proof {
            assert(markets@[k as int]@ == ms[k as int]);
        }
        let ghost before: LiqState = (*user, *orderbook, ids.next);
        let ok = liquidate_position(user, &markets[k], mark_price, orderbook, ids);
        if !ok {
            proof {
                assert(run_fails_at((u1, b0, id0), ms, mark_price, tr, k as int));
            }
            return false;
        }
        proof {
            let tr2 = tr.push((*user, *orderbook, ids.next));
            let ms2 = ms.take(k as int + 1);
            assert forall|q: int| 0 <= q < ms2.len() implies liquidation_step(
                (#[trigger] tr2[q]).0,
                tr2[q].1,
                tr2[q].2,
                ms2[q],
                mark_price,
                tr2[q + 1].0,
                tr2[q + 1].1,
                tr2[q + 1].2,
            ) by {
                if q < k {
                    assert(ms.take(k as int)[q] == ms2[q]);
                    assert(tr[q] == tr2[q]);
                    assert(tr[q + 1] == tr2[q + 1]);
                } else {
                    assert(tr2[q] == before);
                }
            }
            tr = tr2;
        }
        k = k + 1;
    }
    proof {
        assert(ms.take(k as int) =~= ms);
        assert(liquidated_via(
            u0,
            b0,
            id0,
            mark_price,
            maintenance_margin,
            *user,
            *orderbook,
            ids.next,
            u1,
            tr,
        ));
    }
    true
}

} // verus!
