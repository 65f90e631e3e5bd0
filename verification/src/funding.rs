//! Periodic funding payments between longs and shorts.
use vstd::prelude::*;
use crate::decimal::{
    Dec, add_ok, ddiff, div_ok, dprod, dquot, dsum, mul_ok, sub_ok, dec_checked_add,
    dec_checked_div, dec_checked_mul, dec_checked_sub,
};
use crate::orderbook::OrderSide;
use crate::user::{Position, UserAccount, position_with, positions_wf};

verus! {

/// The current funding rate.
#[derive(Debug)]
pub struct FundingRate {
    pub rate: Dec,
}

/// The share of the premium charged per period (`0.1`).
pub open spec fn funding_share() -> Dec {
    Dec { mantissa: 1, scale: 1 }
}

/// The funding rate for a mark and an index price: the premium
/// `(mark - index) / index`, times `0.1`.
pub open spec fn funding_rate_of(mark: Dec, index: Dec) -> Dec {
    dprod(dquot(ddiff(mark, index), index), funding_share())
}

/// `funding_rate_of` neither overflows nor divides by zero.
pub open spec fn funding_rate_ok(mark: Dec, index: Dec) -> bool {
    &&& sub_ok(mark, index)
    &&& div_ok(ddiff(mark, index), index)
    &&& mul_ok(dquot(ddiff(mark, index), index), funding_share())
}

/// The payment on a position: its notional `size * mark` times the rate.
pub open spec fn payment_of(p: Position, funding: Dec, mark: Dec) -> Dec {
    dprod(dprod(p.size, mark), funding)
}

/// `p` with margin `m`.
pub open spec fn with_margin(p: Position, m: Dec) -> Position {
    position_with(p, p.size, p.entry_price, m, p.unrealized_pnl, p.liquidation_price)
}

/// Funding applied to the positions `ps` in turn, from balances `bal` and
/// `avail`: a long pays its payment (balance, available balance and its
/// margin go down by it), a short receives it.  The result: the positions,
/// the balance and the available balance afterwards.
pub open spec fn funding_fold(ps: Seq<Position>, funding: Dec, mark: Dec, bal: Dec, avail: Dec) -> (
    Seq<Position>,
    Dec,
    Dec,
)
    decreases ps.len(),
{
    if ps.len() == 0 {
        (seq![], bal, avail)
    } else {
        let r = funding_fold(ps.drop_last(), funding, mark, bal, avail);
        let p = ps.last();
        let pay = payment_of(p, funding, mark);
        match p.side {
            OrderSide::Buy => (
                r.0.push(with_margin(p, ddiff(p.margin, pay))),
                ddiff(r.1, pay),
                ddiff(r.2, pay),
            ),
            OrderSide::Sell => (
                r.0.push(with_margin(p, dsum(p.margin, pay))),
                dsum(r.1, pay),
                dsum(r.2, pay),
            ),
        }
    }
}

/// No arithmetic in `funding_fold` overflows.
pub open spec fn funding_fold_ok(ps: Seq<Position>, funding: Dec, mark: Dec, bal: Dec, avail: Dec) -> bool
    decreases ps.len(),
{
    if ps.len() == 0 {
        true
    } else {
        let r = funding_fold(ps.drop_last(), funding, mark, bal, avail);
        let p = ps.last();
        let pay = payment_of(p, funding, mark);
        &&& funding_fold_ok(ps.drop_last(), funding, mark, bal, avail)
        &&& mul_ok(p.size, mark)
        &&& mul_ok(dprod(p.size, mark), funding)
        &&& match p.side {
            OrderSide::Buy => sub_ok(r.1, pay) && sub_ok(r.2, pay) && sub_ok(p.margin, pay),
            OrderSide::Sell => add_ok(r.1, pay) && add_ok(r.2, pay) && add_ok(p.margin, pay),
        }
    }
}

/// The arithmetic of funding the account `u` stays in range.
pub open spec fn apply_funding_ok(u: UserAccount, funding: Dec, mark: Dec) -> bool {
    funding_fold_ok(u.positions@, funding, mark, u.balance, u.available_balance)
}

/// A fold prefix of an overflow-free fold is overflow-free.
proof fn lemma_fold_ok_prefix(ps: Seq<Position>, funding: Dec, mark: Dec, bal: Dec, avail: Dec, n: int)
    requires
        funding_fold_ok(ps, funding, mark, bal, avail),
        0 <= n <= ps.len(),
    ensures
        funding_fold_ok(ps.take(n), funding, mark, bal, avail),
    decreases ps.len(),
{
    if n < ps.len() {
        assert(ps.drop_last().take(n) =~= ps.take(n));
        lemma_fold_ok_prefix(ps.drop_last(), funding, mark, bal, avail, n);
    } else {
        assert(ps.take(n) =~= ps);
    }
}

/// When the fold is overflow-free up to position `j` but not through it,
/// it is not overflow-free as a whole.
proof fn lemma_fold_ok_grows(ps: Seq<Position>, funding: Dec, mark: Dec, bal: Dec, avail: Dec, j: int)
    requires
        0 <= j < ps.len(),
        !funding_fold_ok(ps.take(j + 1), funding, mark, bal, avail),
    ensures
        !funding_fold_ok(ps, funding, mark, bal, avail),
{
    if funding_fold_ok(ps, funding, mark, bal, avail) {
        lemma_fold_ok_prefix(ps, funding, mark, bal, avail, j + 1);
    }
}

/// Funding each position in turn leaves the `j`-th with its margin less
/// its notional times the rate for a long, plus that for a short; the rest
/// of it stays.
proof fn lemma_fold_positions(ps: Seq<Position>, funding: Dec, mark: Dec, bal: Dec, avail: Dec)
    ensures
        funding_fold(ps, funding, mark, bal, avail).0.len() == ps.len(),
        forall|j: int|
            0 <= j < ps.len() ==> #[trigger] funding_fold(ps, funding, mark, bal, avail).0[j] == position_with(
                ps[j],
                ps[j].size,
                ps[j].entry_price,
                match ps[j].side {
                    OrderSide::Buy => ddiff(ps[j].margin, dprod(dprod(ps[j].size, mark), funding)),
                    OrderSide::Sell => dsum(ps[j].margin, dprod(dprod(ps[j].size, mark), funding)),
                },
                ps[j].unrealized_pnl,
                ps[j].liquidation_price,
            ),
    decreases ps.len(),
{
    if ps.len() > 0 {
        let rest = ps.drop_last();
        lemma_fold_positions(rest, funding, mark, bal, avail);
        assert forall|j: int| 0 <= j < ps.len() - 1 implies #[trigger] ps[j] == rest[j] by {}
    }
}

/// Funding pays, for each position in turn, its notional `size * mark`
/// times the rate `funding` (with its sign, as decimals): a long's margin
/// and the account's balance and available balance, as they stand when the
/// long's turn comes, go down by that payment, and a short's go up by it;
/// so with a negative rate longs receive and shorts pay.  Nothing else of
/// a position changes, and no position is added or dropped.
pub proof fn law_funding_pays_notional_times_rate(
    ps: Seq<Position>,
    funding: Dec,
    mark: Dec,
    bal: Dec,
    avail: Dec,
    j: int,
)
    requires
        0 <= j < ps.len(),
    ensures
        ({
            let before = funding_fold(ps.take(j), funding, mark, bal, avail);
            let after = funding_fold(ps.take(j + 1), funding, mark, bal, avail);
            let all = funding_fold(ps, funding, mark, bal, avail);
            let p = ps[j];
            let pay = dprod(dprod(p.size, mark), funding);
            &&& all.0.len() == ps.len()
            &&& all.0[j].market == p.market
            &&& all.0[j].side == p.side
            &&& all.0[j].size == p.size
            &&& all.0[j].entry_price == p.entry_price
            &&& all.0[j].leverage == p.leverage
            &&& all.0[j].unrealized_pnl == p.unrealized_pnl
            &&& all.0[j].liquidation_price == p.liquidation_price
            &&& all.0[j].opened_at == p.opened_at
            &&& match p.side {
                OrderSide::Buy => {
                    &&& all.0[j].margin == ddiff(p.margin, pay)
                    &&& after.1 == ddiff(before.1, pay)
                    &&& after.2 == ddiff(before.2, pay)
                },
                OrderSide::Sell => {
                    &&& all.0[j].margin == dsum(p.margin, pay)
                    &&& after.1 == dsum(before.1, pay)
                    &&& after.2 == dsum(before.2, pay)
                },
            }
        }),
{
    lemma_fold_positions(ps, funding, mark, bal, avail);
    let t = ps.take(j + 1);
    assert(t.drop_last() =~= ps.take(j));
    assert(t.last() == ps[j]);
    let q = funding_fold(ps, funding, mark, bal, avail).0[j];
    assert(q == funding_fold(ps, funding, mark, bal, avail).0[j]);
}

impl FundingRate {
    /// A zero rate.
    pub fn new() -> (r: FundingRate)
        ensures
            r.rate == (Dec { mantissa: 0, scale: 0 }),
    {
        FundingRate { rate: Dec::zero() }
    }

    /// Sets and returns the rate for `mark` and `index`.
    pub fn calculate_funding(&mut self, mark: Dec, index: Dec) -> (r: Dec)
        requires
            mark.wf(),
            index.wf(),
            funding_rate_ok(mark, index),
        ensures
            r == funding_rate_of(mark, index),
            final(self).rate == r,
            r.wf(),
    {
        let share = Dec { mantissa: 1, scale: 1 };
        let diff = mark.minus(index).divided_by(index);
        self.rate = diff.times(share);
        self.rate
    }

    /// `calculate_funding` where the arithmetic may overflow or divide by zero:
    /// `None` exactly then, the rate left unchanged.
    pub fn try_calculate_funding(&mut self, mark: Dec, index: Dec) -> (r: Option<Dec>)
        requires
            mark.wf(),
            index.wf(),
        ensures
            r is Some == funding_rate_ok(mark, index),
            r matches Some(x) ==> x == funding_rate_of(mark, index) && final(self).rate == x && x.wf(),
            r is None ==> final(self).rate == old(self).rate,
    {
        let share = Dec { mantissa: 1, scale: 1 };
        let d = match dec_checked_sub(mark, index) {
            Some(x) => x,
            None => return None,
        };
        let q = match dec_checked_div(d, index) {
            Some(x) => x,
            None => return None,
        };
        match dec_checked_mul(q, share) {
            Some(x) => {
                self.rate = x;
                Some(x)
            },
            None => None,
        }
    }

    /// Whether `apply_funding(user, funding, mark)` completes without
    /// overflow (`apply_funding_ok`).
    pub fn apply_funding_checks(&self, user: &UserAccount, funding: Dec, mark: Dec) -> (r: bool)
        requires
            user.wf(),
            funding.wf(),
            mark.wf(),
        ensures
            r == apply_funding_ok(*user, funding, mark),
    {
        let ghost ps = user.positions@;
        let mut bal = user.balance;
        let mut avail = user.available_balance;
        let mut j: usize = 0;
        while j < user.positions.len()
            invariant
                0 <= j <= ps.len(),
                ps == user.positions@,
                user.wf(),
                funding.wf(),
                mark.wf(),
                bal.wf(),
                avail.wf(),
                funding_fold_ok(ps.take(j as int), funding, mark, user.balance, user.available_balance),
                ({
                    let f = funding_fold(ps.take(j as int), funding, mark, user.balance, user.available_balance);
                    f.1 == bal && f.2 == avail
                }),
            decreases ps.len() - j,
        {
            let ghost t = ps.take(j as int + 1);
            proof {
                assert(t.drop_last() =~= ps.take(j as int));
                assert(t.last() == ps[j as int]);
                assert(ps[j as int].wf());
            }
            let p = &user.positions[j];
            let notional = match dec_checked_mul(p.size, mark) {
                Some(x) => x,
                None => {
                    proof {
                        lemma_fold_ok_grows(ps, funding, mark, user.balance, user.available_balance, j as int);
                    }
                    return false;
                },
            };
            let payment = match dec_checked_mul(notional, funding) {
                Some(x) => x,
                None => {
                    proof {
                        lemma_fold_ok_grows(ps, funding, mark, user.balance, user.available_balance, j as int);
                    }
                    return false;
                },
            };
            let step = match p.side {
                OrderSide::Buy => match (
                    dec_checked_sub(bal, payment),
                    dec_checked_sub(avail, payment),
                    dec_checked_sub(p.margin, payment),
                ) {
                    (Some(b), Some(a), Some(_)) => Some((b, a)),
                    _ => None,
                },
                OrderSide::Sell => match (
                    dec_checked_add(bal, payment),
                    dec_checked_add(avail, payment),
                    dec_checked_add(p.margin, payment),
                ) {
                    (Some(b), Some(a), Some(_)) => Some((b, a)),
                    _ => None,
                },
            };
            match step {
                Some((b, a)) => {
                    bal = b;
                    avail = a;
                },
                None => {
                    proof {
                        lemma_fold_ok_grows(ps, funding, mark, user.balance, user.available_balance, j as int);
                    }
                    return false;
                },
            }
            j = j + 1;
        }
        proof {
            assert(ps.take(ps.len() as int) =~= ps);
        }
        true
    }

    /// `apply_funding` where the arithmetic may overflow: returns whether it
    /// did not (`apply_funding_ok`); the account is unchanged when it would
    /// have.
    pub fn try_apply_funding(&self, user: &mut UserAccount, funding: Dec, mark: Dec) -> (r: bool)
        requires
            old(user).wf(),
            funding.wf(),
            mark.wf(),
        ensures
            final(user).wf(),
            r == apply_funding_ok(*old(user), funding, mark),
            r ==> ({
                let f = funding_fold(
                    old(user).positions@,
                    funding,
                    mark,
                    old(user).balance,
                    old(user).available_balance,
                );
                &&& final(user).positions@ == f.0
                &&& final(user).balance == f.1
                &&& final(user).available_balance == f.2
                &&& final(user).pubkey == old(user).pubkey
                &&& final(user).order_history == old(user).order_history
                &&& final(user).fill_history == old(user).fill_history
            }),
            !r ==> *final(user) == *old(user),
    {
        if self.apply_funding_checks(user, funding, mark) {
            self.apply_funding(user, funding, mark);
            true
        } else {
            false
        }
    }

    /// Applies funding at rate `funding` to every position of `user`, in the
    /// order they are held (`funding_fold`).
    pub fn apply_funding(&self, user: &mut UserAccount, funding: Dec, mark: Dec)
        requires
            old(user).wf(),
            funding.wf(),
            mark.wf(),
            apply_funding_ok(*old(user), funding, mark),
        ensures
            final(user).wf(),
            ({
                let r = funding_fold(
                    old(user).positions@,
                    funding,
                    mark,
                    old(user).balance,
                    old(user).available_balance,
                );
                &&& final(user).positions@ == r.0
                &&& final(user).balance == r.1
                &&& final(user).available_balance == r.2
            }),
            final(user).pubkey == old(user).pubkey,
            final(user).order_history == old(user).order_history,
            final(user).fill_history == old(user).fill_history,
    {
        let ghost ps = user.positions@;
        let ghost b0 = user.balance;
        let ghost a0 = user.available_balance;
        let mut j: usize = 0;
        while j < user.positions.len()
            invariant
                0 <= j <= ps.len(),
                user.positions@.len() == ps.len(),
                funding.wf(),
                mark.wf(),
                user.wf(),
                ps == old(user).positions@,
                b0 == old(user).balance,
                a0 == old(user).available_balance,
                funding_fold_ok(ps, funding, mark, b0, a0),
                user.pubkey == old(user).pubkey,
                user.order_history == old(user).order_history,
                user.fill_history == old(user).fill_history,
                ({
                    let r = funding_fold(ps.take(j as int), funding, mark, b0, a0);
                    &&& user.positions@.take(j as int) == r.0
                    &&& user.balance == r.1
                    &&& user.available_balance == r.2
                }),
                forall|k: int| j <= k < ps.len() ==> #[trigger] user.positions@[k] == ps[k],
            decreases ps.len() - j,
        {
            let ghost before = user.positions@;
            proof {
                lemma_fold_ok_prefix(ps, funding, mark, b0, a0, j + 1);
                assert(ps.take(j + 1).drop_last() =~= ps.take(j as int));
                assert(ps.take(j + 1).last() == ps[j as int]);
                assert(before[j as int] == ps[j as int]);
            }
            let mut pos = user.positions.remove(j);
            let payment = pos.size.times(mark).times(funding);
            match pos.side {
                OrderSide::Buy => {
                    user.balance = user.balance.minus(payment);
                    user.available_balance = user.available_balance.minus(payment);
                    pos.margin = pos.margin.minus(payment);
                },
                OrderSide::Sell => {
                    user.balance = user.balance.plus(payment);
                    user.available_balance = user.available_balance.plus(payment);
                    pos.margin = pos.margin.plus(payment);
                },
            }
            user.positions.insert(j, pos);
            proof {
                let q = user.positions@[j as int];
                assert(user.positions@ =~= before.update(j as int, q));
                assert(positions_wf(user.positions@)) by {
                    assert forall|a: int, b: int|
                        0 <= a < b < user.positions@.len() implies (#[trigger] user.positions@[a]).market@
                        != (#[trigger] user.positions@[b]).market@ by {
                        assert(before[a].market@ != before[b].market@);
                    }
                }
                assert(user.positions@.take(j + 1) =~= before.take(j as int).push(q));
            }
            j = j + 1;
        }
        proof {
            assert(ps.take(ps.len() as int) =~= ps);
            assert(user.positions@.take(ps.len() as int) =~= user.positions@);
        }
    }
}

} // verus!
