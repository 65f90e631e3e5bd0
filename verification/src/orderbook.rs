//! The limit order book: resting orders grouped by price level.
//!
//! Each side is a sequence of price levels in ascending order of price; a
//! level holds its orders in arrival order (time priority).  A level may be
//! empty: cancelling the last order of a level leaves the level in place, as
//! the book has always done.
use vstd::prelude::*;
use crate::decimal::{Dec, dec_min, dsum, add_ok, ddiff, sub_ok, dprod, mul_ok, dquot, div_ok, dec_checked_add, dec_checked_sub, dec_checked_mul, dec_checked_div, lemma_sub_self, fits_at, max_nat, dec_limit, pow10};
use crate::clock::now_secs;
use crate::text::str_eq;
use crate::matcher::{FillEvent, same_fills, fills_wf};

verus! {

/// Identifier of an order.
pub type OrderId = u64;

#[derive(Clone, Copy, PartialEq, Eq, Debug, Structural)]
pub enum OrderSide {
    Buy,
    Sell,
}

#[derive(Clone, Copy, PartialEq, Eq, Debug, Structural)]
pub enum OrderType {
    Market,
    Limit,
}

/// The other side.
pub open spec fn opposite(side: OrderSide) -> OrderSide {
    match side {
        OrderSide::Buy => OrderSide::Sell,
        OrderSide::Sell => OrderSide::Buy,
    }
}

/// Hands out order identifiers 1, 2, 3, ... in turn.
pub struct OrderIds {
    pub next: u64,
}

impl OrderIds {
    /// A fresh source whose first identifier is 1.
    pub fn new() -> (r: OrderIds)
        ensures
            r.next == 1,
    {
        OrderIds { next: 1 }
    }

    /// The next identifier; each call returns one more than the last.
    pub fn next_order_id(&mut self) -> (id: OrderId)
        requires
            old(self).next < u64::MAX,
        ensures
            id == old(self).next,
            final(self).next == old(self).next + 1,
    {
        let id = self.next;
        self.next = self.next + 1;
        id
    }
}

/// An order; `remaining` is the part not yet filled.  `created_at` is the
/// time of creation in seconds since the Unix epoch.
#[derive(Debug)]
pub struct Order {
    pub id: OrderId,
    pub user: String,
    pub side: OrderSide,
    pub order_type: OrderType,
    pub price: Dec,
    pub size: Dec,
    pub remaining: Dec,
    pub leverage: u32,
    pub created_at: i64,
}

impl Order {
    /// Its amounts are valid decimals.
    pub open spec fn wf(self) -> bool {
        &&& self.price.wf()
        &&& self.size.wf()
        &&& self.remaining.wf()
    }

    /// `self` and `other` agree field by field (the user by its text).
    pub open spec fn same_as(self, other: Order) -> bool {
        &&& self.id == other.id
        &&& self.user@ == other.user@
        &&& self.side == other.side
        &&& self.order_type == other.order_type
        &&& self.price == other.price
        &&& self.size == other.size
        &&& self.remaining == other.remaining
        &&& self.leverage == other.leverage
        &&& self.created_at == other.created_at
    }

    /// A new order with the next identifier of `ids`, nothing filled yet, and
    /// the current time as its creation time.
    pub fn new(
        ids: &mut OrderIds,
        user: String,
        side: OrderSide,
        order_type: OrderType,
        price: Dec,
        size: Dec,
        leverage: u32,
    ) -> (r: Order)
        requires
            old(ids).next < u64::MAX,
        ensures
            r.id == old(ids).next,
            final(ids).next == old(ids).next + 1,
            r.user == user,
            r.side == side,
            r.order_type == order_type,
            r.price == price,
            r.size == size,
            r.remaining == size,
            r.leverage == leverage,
    {
        let id = ids.next_order_id();
        let created_at = now_secs();
        Order { id, user, side, order_type, price, size, remaining: size, leverage, created_at }
    }

    /// A copy of the order.
    pub fn duplicate(&self) -> (r: Order)
        ensures
            r.same_as(*self),
    {
        Order {
            id: self.id,
            user: self.user.clone(),
            side: self.side,
            order_type: self.order_type,
            price: self.price,
            size: self.size,
            remaining: self.remaining,
            leverage: self.leverage,
            created_at: self.created_at,
        }
    }
}

/// The orders resting at one price, oldest first.
#[derive(Debug)]
pub struct PriceLevel {
    pub price: Dec,
    pub orders: Vec<Order>,
}

/// A price level as a value: its price and its orders.
pub type Level = (Dec, Seq<Order>);

/// The levels of a side, as values.
pub open spec fn levels_of(v: Seq<PriceLevel>) -> Seq<Level> {
    Seq::new(v.len(), |i: int| (v[i].price, v[i].orders@))
}

/// An order may rest at level `price` of side `side`.
pub open spec fn order_fits_level(o: Order, price: Dec, side: OrderSide) -> bool {
    &&& o.wf()
    &&& o.price.val() == price.val()
    &&& o.side == side
}

/// A well-formed side: valid prices in strictly ascending order, each order at
/// the level of its price and on the side's own side.
pub open spec fn side_wf(levels: Seq<Level>, side: OrderSide) -> bool {
    &&& forall|i: int| 0 <= i < levels.len() ==> (#[trigger] levels[i]).0.wf()
    &&& forall|i: int, j: int|
        0 <= i < j < levels.len() ==> (#[trigger] levels[i]).0.val() < (#[trigger] levels[j]).0.val()
    &&& forall|i: int, k: int|
        0 <= i < levels.len() && 0 <= k < levels[i].1.len() ==> order_fits_level(
            #[trigger] levels[i].1[k],
            levels[i].0,
            side,
        )
}

/// The number of levels whose price is below `p`: where a level for `p` is
/// found or inserted.
pub open spec fn lower_bound(levels: Seq<Level>, p: Dec) -> nat
    decreases levels.len(),
{
    if levels.len() == 0 {
        0
    } else if levels[0].0.val() < p.val() {
        1 + lower_bound(levels.drop_first(), p)
    } else {
        0
    }
}

/// The index of the level whose price equals `p` in value, if there is one.
pub open spec fn level_at(levels: Seq<Level>, p: Dec) -> Option<int> {
    let i = lower_bound(levels, p) as int;
    if i < levels.len() && levels[i].0.val() == p.val() {
        Some(i)
    } else {
        None
    }
}

/// The side after `o` joins the back of the level for its price (a new level
/// is created in price order when there is none).
pub open spec fn insert_order(levels: Seq<Level>, o: Order) -> Seq<Level> {
    match level_at(levels, o.price) {
        Some(i) => levels.update(i, (levels[i].0, levels[i].1.push(o))),
        None => levels.insert(lower_bound(levels, o.price) as int, (o.price, seq![o])),
    }
}

/// The prices of the levels, ascending.
pub open spec fn prices_of(levels: Seq<Level>) -> Seq<Dec> {
    Seq::new(levels.len(), |i: int| levels[i].0)
}

/// Index of the first element of `s` satisfying `pred` (`s.len()` if none).
pub open spec fn first_index<A>(s: Seq<A>, pred: spec_fn(A) -> bool) -> nat
    decreases s.len(),
{
    if s.len() == 0 {
        0
    } else if pred(s[0]) {
        0
    } else {
        1 + first_index(s.drop_first(), pred)
    }
}

/// `first_index` is the first position that satisfies `pred`.
pub proof fn lemma_first_index<A>(s: Seq<A>, pred: spec_fn(A) -> bool)
    ensures
        first_index(s, pred) <= s.len(),
        forall|j: int| 0 <= j < first_index(s, pred) ==> !pred(#[trigger] s[j]),
        first_index(s, pred) < s.len() ==> pred(s[first_index(s, pred) as int]),
    decreases s.len(),
{
    if s.len() > 0 && !pred(s[0]) {
        let rest = s.drop_first();
        lemma_first_index(rest, pred);
        assert forall|j: int| 0 <= j < first_index(s, pred) implies !pred(#[trigger] s[j]) by {
            if j > 0 {
                assert(s[j] == rest[j - 1]);
            }
        }
    }
}

/// A position before which nothing satisfies `pred`, and which satisfies it
/// (or is the end), is `first_index`.
pub proof fn lemma_first_index_unique<A>(s: Seq<A>, pred: spec_fn(A) -> bool, i: int)
    requires
        0 <= i <= s.len(),
        forall|j: int| 0 <= j < i ==> !pred(#[trigger] s[j]),
        i < s.len() ==> pred(s[i]),
    ensures
        first_index(s, pred) == i,
{
    lemma_first_index(s, pred);
    let f = first_index(s, pred) as int;
    if f < i {
        assert(!pred(s[f]));
    }
    if i < f {
        assert(!pred(s[i]));
    }
}

/// The order has identifier `id`.
pub open spec fn has_id(id: OrderId) -> spec_fn(Order) -> bool {
    |o: Order| o.id == id
}

/// Position of the first order with identifier `id` (the length if none).
pub open spec fn position_of_id(orders: Seq<Order>, id: OrderId) -> nat {
    first_index(orders, has_id(id))
}

/// The level holds an order with identifier `id`.
pub open spec fn level_has_id(id: OrderId) -> spec_fn(Level) -> bool {
    |l: Level| position_of_id(l.1, id) < l.1.len()
}

/// Index of the first level holding an order with identifier `id`.
pub open spec fn level_with_id(levels: Seq<Level>, id: OrderId) -> nat {
    first_index(levels, level_has_id(id))
}

/// Some level of the side holds an order with identifier `id`.
pub open spec fn side_has_id(levels: Seq<Level>, id: OrderId) -> bool {
    level_with_id(levels, id) < levels.len()
}

/// The side after the first order with identifier `id` (levels in ascending
/// order, orders oldest first) is taken out; its level stays, even if empty.
pub open spec fn cancel_in_side(levels: Seq<Level>, id: OrderId) -> Seq<Level> {
    let i = level_with_id(levels, id) as int;
    if i < levels.len() {
        levels.update(i, (levels[i].0, levels[i].1.remove(position_of_id(levels[i].1, id) as int)))
    } else {
        levels
    }
}

/// What `remove_order` takes out of a side: the order with identifier `id`
/// in the level for `price`, if there is one.
pub open spec fn removed_from_side(levels: Seq<Level>, price: Dec, id: OrderId) -> Option<Order> {
    match level_at(levels, price) {
        Some(i) => if position_of_id(levels[i].1, id) < levels[i].1.len() {
            Some(levels[i].1[position_of_id(levels[i].1, id) as int])
        } else {
            None
        },
        None => None,
    }
}

/// The side after `remove_order`; the level stays, even if empty.
pub open spec fn remove_from_side(levels: Seq<Level>, price: Dec, id: OrderId) -> Seq<Level> {
    match level_at(levels, price) {
        Some(i) => if position_of_id(levels[i].1, id) < levels[i].1.len() {
            levels.update(i, (levels[i].0, levels[i].1.remove(position_of_id(levels[i].1, id) as int)))
        } else {
            levels
        },
        None => levels,
    }
}

/// `cancel_random_order` succeeds: the level for `price` exists and is not
/// empty.
pub open spec fn can_cancel_front(levels: Seq<Level>, price: Dec) -> bool {
    match level_at(levels, price) {
        Some(i) => levels[i].1.len() > 0,
        None => false,
    }
}

/// The side after the oldest order of the level for `price` is taken out; the
/// level goes when it becomes empty.
pub open spec fn cancel_front(levels: Seq<Level>, price: Dec) -> Seq<Level> {
    match level_at(levels, price) {
        Some(i) => if levels[i].1.len() == 0 {
            levels
        } else if levels[i].1.len() == 1 {
            levels.remove(i)
        } else {
            levels.update(i, (levels[i].0, levels[i].1.drop_first()))
        },
        None => levels,
    }
}

/// The orders of `orders` placed by `user`, in order.
pub open spec fn orders_of_user(orders: Seq<Order>, user: Seq<char>) -> Seq<Order>
    decreases orders.len(),
{
    if orders.len() == 0 {
        seq![]
    } else if orders.last().user@ == user {
        orders_of_user(orders.drop_last(), user).push(orders.last())
    } else {
        orders_of_user(orders.drop_last(), user)
    }
}

/// The orders of a side placed by `user`: level by level in ascending order
/// of price, oldest first within a level.
pub open spec fn side_orders_of_user(levels: Seq<Level>, user: Seq<char>) -> Seq<Order>
    decreases levels.len(),
{
    if levels.len() == 0 {
        seq![]
    } else {
        side_orders_of_user(levels.drop_last(), user) + orders_of_user(levels.last().1, user)
    }
}

/// Two sequences of orders agree order by order (users by their text).
pub open spec fn same_orders(a: Seq<Order>, b: Seq<Order>) -> bool {
    &&& a.len() == b.len()
    &&& forall|i: int| 0 <= i < a.len() ==> (#[trigger] a[i]).same_as(b[i])
}

/// The sum of the remaining sizes of `orders`, added up from the first as
/// `Decimal`'s `Sum` does, starting from zero.
pub open spec fn level_total(orders: Seq<Order>) -> Dec
    decreases orders.len(),
{
    if orders.len() == 0 {
        Dec { mantissa: 0, scale: 0 }
    } else {
        dsum(level_total(orders.drop_last()), orders.last().remaining)
    }
}

/// No addition in `level_total(orders)` overflows.
pub open spec fn level_total_ok(orders: Seq<Order>) -> bool
    decreases orders.len(),
{
    if orders.len() == 0 {
        true
    } else {
        level_total_ok(orders.drop_last()) && add_ok(
            level_total(orders.drop_last()),
            orders.last().remaining,
        )
    }
}

/// Every level total of the side can be computed.
pub open spec fn side_totals_ok(levels: Seq<Level>) -> bool {
    forall|i: int| 0 <= i < levels.len() ==> level_total_ok(#[trigger] levels[i].1)
}

/// (price, total remaining size) of each level.
pub open spec fn totals(levels: Seq<Level>) -> Seq<(Dec, Dec)> {
    Seq::new(levels.len(), |i: int| (levels[i].0, level_total(levels[i].1)))
}

/// The first `n` elements of `s`, or all of them when there are fewer.
pub open spec fn take_upto<A>(s: Seq<A>, n: int) -> Seq<A> {
    if n < s.len() {
        s.take(n)
    } else {
        s
    }
}

/// The decimal `n`, scale 0 (`Decimal::from(n)`).
pub open spec fn dec_of_u32(n: u32) -> Dec {
    Dec { mantissa: n as i128, scale: 0 }
}

/// `o` with its remaining size replaced by `r`.
pub open spec fn with_remaining(o: Order, r: Dec) -> Order {
    Order {
        id: o.id,
        user: o.user,
        side: o.side,
        order_type: o.order_type,
        price: o.price,
        size: o.size,
        remaining: r,
        leverage: o.leverage,
        created_at: o.created_at,
    }
}

/// The fill of `size` at `price` for the incoming order `taker`; the margin
/// is the notional `size * price` over the taker's leverage.
pub open spec fn fill_for(taker: Order, price: Dec, size: Dec) -> FillEvent {
    FillEvent {
        order_id: taker.id,
        user: taker.user,
        side: taker.side,
        price: price,
        size: size,
        margin_used: dquot(dprod(size, price), dec_of_u32(taker.leverage)),
        leverage: taker.leverage,
    }
}

/// The size traded when `taker` meets the resting order `o`: the smaller of
/// the two remaining sizes (`o`'s on a tie).
pub open spec fn trade_size(o: Order, taker: Order) -> Dec {
    dec_min(o.remaining, taker.remaining)
}

/// None of the arithmetic of the trade of `taker` against `o` at `price`
/// overflows: notional, margin, and both new remaining sizes.
pub open spec fn trade_ok(o: Order, price: Dec, taker: Order) -> bool {
    let f = trade_size(o, taker);
    &&& mul_ok(f, price)
    &&& div_ok(dprod(f, price), dec_of_u32(taker.leverage))
    &&& sub_ok(o.remaining, f)
    &&& sub_ok(taker.remaining, f)
}

/// `taker` meets the orders of one level in turn, for a sweep at `price`.
/// An order whose price is not `price`, or met once the taker has nothing
/// left, stays as it is.  Otherwise they trade the smaller remaining size;
/// the resting order leaves when nothing of it remains.  The result: the
/// orders that stay, the fills, the taker afterwards, and whether no
/// arithmetic overflowed (the rest is meaningless when it did).
pub open spec fn level_fill(orders: Seq<Order>, price: Dec, taker: Order) -> (
    Seq<Order>,
    Seq<FillEvent>,
    Order,
    bool,
)
    decreases orders.len(),
{
    if orders.len() == 0 {
        (seq![], seq![], taker, true)
    } else {
        let o = orders[0];
        if o.price.val() != price.val() || taker.remaining.val() <= 0 {
            let r = level_fill(orders.drop_first(), price, taker);
            (seq![o] + r.0, r.1, r.2, r.3)
        } else if !trade_ok(o, price, taker) {
            (orders, seq![], taker, false)
        } else {
            let f = trade_size(o, taker);
            let o2 = with_remaining(o, ddiff(o.remaining, f));
            let t2 = with_remaining(taker, ddiff(taker.remaining, f));
            let r = level_fill(orders.drop_first(), price, t2);
            (
                if o2.remaining.val() <= 0 {
                    r.0
                } else {
                    seq![o2] + r.0
                },
                seq![fill_for(taker, price, f)] + r.1,
                r.2,
                r.3,
            )
        }
    }
}

/// A sweep of one side at `price`: every level in ascending order of price
/// goes through `level_fill`, and a level left without orders is dropped.
pub open spec fn side_sweep(levels: Seq<Level>, price: Dec, taker: Order) -> (
    Seq<Level>,
    Seq<FillEvent>,
    Order,
    bool,
)
    decreases levels.len(),
{
    if levels.len() == 0 {
        (seq![], seq![], taker, true)
    } else {
        let l = levels[0];
        let r0 = level_fill(l.1, price, taker);
        if !r0.3 {
            (levels, seq![], taker, false)
        } else {
            let r = side_sweep(levels.drop_first(), price, r0.2);
            (
                if r0.0.len() == 0 {
                    r.0
                } else {
                    seq![(l.0, r0.0)] + r.0
                },
                r0.1 + r.1,
                r.2,
                r.3,
            )
        }
    }
}

/// An order added to a side can be found there by its identifier, so
/// cancelling it afterwards succeeds.
pub proof fn law_added_order_is_found(levels: Seq<Level>, o: Order)
    requires
        side_wf(levels, o.side),
    ensures
        side_has_id(insert_order(levels, o), o.id),
{
    let after = insert_order(levels, o);
    let i: int = match level_at(levels, o.price) {
        Some(i) => i,
        None => lower_bound(levels, o.price) as int,
    };
    lemma_lower_bound(levels, o.price);
    let l = after[i];
    assert(l.1.last() == o);
    lemma_first_index(l.1, has_id(o.id));
    if position_of_id(l.1, o.id) >= l.1.len() {
        assert(!has_id(o.id)(l.1[l.1.len() - 1]));
    }
    assert(level_has_id(o.id)(after[i]));
    lemma_first_index(after, level_has_id(o.id));
    if level_with_id(after, o.id) > i {
        assert(!level_has_id(o.id)(after[i]));
    }
}

/// Cancelling an order just added at a price that already had a level, and
/// whose identifier was not in the side yet, gives the side back as it was.
pub proof fn law_cancel_undoes_add(levels: Seq<Level>, o: Order)
    requires
        side_wf(levels, o.side),
        level_at(levels, o.price) is Some,
        !side_has_id(levels, o.id),
    ensures
        cancel_in_side(insert_order(levels, o), o.id) == levels,
{
    let i = level_at(levels, o.price)->Some_0;
    lemma_lower_bound(levels, o.price);
    let os = levels[i].1;
    let after = insert_order(levels, o);
    assert(after == levels.update(i, (levels[i].0, os.push(o))));
    lemma_first_index(levels, level_has_id(o.id));
    assert(!level_has_id(o.id)(levels[i]));
    lemma_first_index(os, has_id(o.id));
    assert forall|k: int| 0 <= k < os.len() implies !has_id(o.id)(#[trigger] os.push(o)[k]) by {
        assert(os.push(o)[k] == os[k]);
        lemma_first_index(os, has_id(o.id));
    }
    lemma_first_index_unique(os.push(o), has_id(o.id), os.len() as int);
    assert forall|j: int| 0 <= j < i implies !level_has_id(o.id)(#[trigger] after[j]) by {
        assert(after[j] == levels[j]);
    }
    lemma_first_index_unique(after, level_has_id(o.id), i);
    assert(os.push(o).remove(os.len() as int) =~= os);
    assert(cancel_in_side(after, o.id) =~= levels);
}

/// `lower_bound` on a sorted side: every level before it is below `p`, the
/// level at it (if any) is not.
pub proof fn lemma_lower_bound(levels: Seq<Level>, p: Dec)
    requires
        forall|i: int, j: int|
            0 <= i < j < levels.len() ==> (#[trigger] levels[i]).0.val() < (#[trigger] levels[j]).0.val(),
    ensures
        lower_bound(levels, p) <= levels.len(),
        forall|j: int| 0 <= j < lower_bound(levels, p) ==> (#[trigger] levels[j]).0.val() < p.val(),
        lower_bound(levels, p) < levels.len() ==> levels[lower_bound(levels, p) as int].0.val()
            >= p.val(),
    decreases levels.len(),
{
    if levels.len() > 0 && levels[0].0.val() < p.val() {
        let rest = levels.drop_first();
        assert forall|i: int, j: int| 0 <= i < j < rest.len() implies (#[trigger] rest[i]).0.val()
            < (#[trigger] rest[j]).0.val() by {
            assert(rest[i] == levels[i + 1]);
            assert(rest[j] == levels[j + 1]);
        }
        lemma_lower_bound(rest, p);
        assert forall|j: int| 0 <= j < lower_bound(levels, p) implies (#[trigger] levels[j]).0.val()
            < p.val() by {
            if j > 0 {
                assert(levels[j] == rest[j - 1]);
            }
        }
    }
}

/// On a sorted side, an index with the two properties of `lower_bound` is it.
pub proof fn lemma_lower_bound_unique(levels: Seq<Level>, p: Dec, i: int)
    requires
        forall|a: int, b: int|
            0 <= a < b < levels.len() ==> (#[trigger] levels[a]).0.val() < (#[trigger] levels[b]).0.val(),
        0 <= i <= levels.len(),
        forall|j: int| 0 <= j < i ==> (#[trigger] levels[j]).0.val() < p.val(),
        i < levels.len() ==> levels[i].0.val() >= p.val(),
    ensures
        lower_bound(levels, p) == i,
{
    lemma_lower_bound(levels, p);
    let lb = lower_bound(levels, p) as int;
    if lb < i {
        assert(levels[lb].0.val() < p.val());
    }
    if i < lb {
        assert(levels[i].0.val() < p.val());
    }
}

/// Index of the level for `p` in a sorted vector of levels, with the place
/// where such a level would go.
fn find_level(v: &Vec<PriceLevel>, p: Dec) -> (r: (usize, bool))
    requires
        p.wf(),
        forall|i: int| 0 <= i < v.len() ==> (#[trigger] v[i]).price.wf(),
        forall|i: int, j: int|
            0 <= i < j < v.len() ==> (#[trigger] v[i]).price.val() < (#[trigger] v[j]).price.val(),
    ensures
        r.0 == lower_bound(levels_of(v@), p),
        r.1 == (level_at(levels_of(v@), p) is Some),
{
    let ghost lv = levels_of(v@);
    let mut i: usize = 0;
    while i < v.len() && v[i].price.lt(&p)
        invariant
            0 <= i <= v.len(),
            p.wf(),
            lv == levels_of(v@),
            forall|k: int| 0 <= k < v.len() ==> (#[trigger] v[k]).price.wf(),
            forall|j: int| 0 <= j < i ==> (#[trigger] v[j]).price.val() < p.val(),
        decreases v.len() - i,
    {
        i = i + 1;
    }
    proof {
        assert forall|a: int, b: int| 0 <= a < b < lv.len() implies (#[trigger] lv[a]).0.val()
            < (#[trigger] lv[b]).0.val() by {
            assert(lv[a].0 == v[a].price);
            assert(lv[b].0 == v[b].price);
        }
        assert forall|j: int| 0 <= j < i implies (#[trigger] lv[j]).0.val() < p.val() by {
            assert(lv[j].0 == v[j].price);
        }
        lemma_lower_bound_unique(lv, p, i as int);
    }
    let found = i < v.len() && v[i].price.same_value(&p);
    (i, found)
}

/// Position of the first order with identifier `id` in `orders`.
fn position_in(orders: &Vec<Order>, id: OrderId) -> (r: usize)
    ensures
        r == position_of_id(orders@, id),
{
    let mut k: usize = 0;
    while k < orders.len() && orders[k].id != id
        invariant
            0 <= k <= orders.len(),
            forall|j: int| 0 <= j < k ==> !has_id(id)(#[trigger] orders@[j]),
        decreases orders.len() - k,
    {
        k = k + 1;
    }
    proof {
        lemma_first_index_unique(orders@, has_id(id), k as int);
    }
    k
}

/// Facts about a side that hold element by element of its vector.
proof fn lemma_side_vec(v: Seq<PriceLevel>, side: OrderSide)
    requires
        side_wf(levels_of(v), side),
    ensures
        forall|i: int| 0 <= i < v.len() ==> (#[trigger] v[i]).price.wf(),
        forall|i: int, j: int|
            0 <= i < j < v.len() ==> (#[trigger] v[i]).price.val() < (#[trigger] v[j]).price.val(),
{
    let lv = levels_of(v);
    assert forall|i: int| 0 <= i < v.len() implies (#[trigger] v[i]).price.wf() by {
        assert(lv[i].0 == v[i].price);
    }
    assert forall|i: int, j: int| 0 <= i < j < v.len() implies (#[trigger] v[i]).price.val() < (
    #[trigger] v[j]).price.val() by {
        assert(lv[i].0 == v[i].price);
        assert(lv[j].0 == v[j].price);
    }
}

/// Replacing the orders of one level by a subsequence of them keeps a side
/// well formed.
proof fn lemma_side_wf_update(levels: Seq<Level>, side: OrderSide, i: int, orders: Seq<Order>)
    requires
        side_wf(levels, side),
        0 <= i < levels.len(),
        forall|k: int|
            0 <= k < orders.len() ==> order_fits_level(#[trigger] orders[k], levels[i].0, side),
    ensures
        side_wf(levels.update(i, (levels[i].0, orders)), side),
{
    let nl = levels.update(i, (levels[i].0, orders));
    assert forall|a: int, k: int| 0 <= a < nl.len() && 0 <= k < nl[a].1.len() implies order_fits_level(
        #[trigger] nl[a].1[k],
        nl[a].0,
        side,
    ) by {
        if a != i {
            assert(nl[a] == levels[a]);
        }
    }
    assert forall|a: int, b: int| 0 <= a < b < nl.len() implies (#[trigger] nl[a]).0.val() < (
    #[trigger] nl[b]).0.val() by {
        assert(nl[a].0 == levels[a].0);
        assert(nl[b].0 == levels[b].0);
    }
}

/// Removing a level keeps a side well formed.
proof fn lemma_side_wf_remove(levels: Seq<Level>, side: OrderSide, i: int)
    requires
        side_wf(levels, side),
        0 <= i < levels.len(),
    ensures
        side_wf(levels.remove(i), side),
{
    let nl = levels.remove(i);
    assert forall|a: int, k: int| 0 <= a < nl.len() && 0 <= k < nl[a].1.len() implies order_fits_level(
        #[trigger] nl[a].1[k],
        nl[a].0,
        side,
    ) by {
        if a < i {
            assert(nl[a] == levels[a]);
        } else {
            assert(nl[a] == levels[a + 1]);
        }
    }
    assert forall|a: int, b: int| 0 <= a < b < nl.len() implies (#[trigger] nl[a]).0.val() < (
    #[trigger] nl[b]).0.val() by {
        if a < i {
            assert(nl[a] == levels[a]);
        } else {
            assert(nl[a] == levels[a + 1]);
        }
        if b < i {
            assert(nl[b] == levels[b]);
        } else {
            assert(nl[b] == levels[b + 1]);
        }
    }
}

/// Takes the first order with identifier `id` out of the side `v`.
fn cancel_in(v: &mut Vec<PriceLevel>, id: OrderId, side: OrderSide) -> (r: bool)
    requires
        side_wf(levels_of(old(v)@), side),
    ensures
        side_wf(levels_of(final(v)@), side),
        r == side_has_id(levels_of(old(v)@), id),
        levels_of(final(v)@) == cancel_in_side(levels_of(old(v)@), id),
{
    let ghost lv = levels_of(v@);
    let mut i: usize = 0;
    while i < v.len()
        invariant
            0 <= i <= v.len(),
            lv == levels_of(v@),
            lv == levels_of(old(v)@),
            side_wf(lv, side),
            forall|j: int| 0 <= j < i ==> !level_has_id(id)(#[trigger] lv[j]),
        decreases v.len() - i,
    {
        let k = position_in(&v[i].orders, id);
        if k < v[i].orders.len() {
            proof {
                assert(lv[i as int].1 == v@[i as int].orders@);
                assert(level_has_id(id)(lv[i as int]));
                lemma_first_index_unique(lv, level_has_id(id), i as int);
            }
            let mut lvl = v.remove(i);
            lvl.orders.remove(k);
            v.insert(i, lvl);
            proof {
                let expect = lv.update(
                    i as int,
                    (lv[i as int].0, lv[i as int].1.remove(k as int)),
                );
                assert(levels_of(v@) =~= expect);
                assert forall|q: int| 0 <= q < lv[i as int].1.remove(k as int).len() implies order_fits_level(
                    #[trigger] lv[i as int].1.remove(k as int)[q],
                    lv[i as int].0,
                    side,
                ) by {
                    if q < k {
                        assert(lv[i as int].1.remove(k as int)[q] == lv[i as int].1[q]);
                    } else {
                        assert(lv[i as int].1.remove(k as int)[q] == lv[i as int].1[q + 1]);
                    }
                }
                lemma_side_wf_update(lv, side, i as int, lv[i as int].1.remove(k as int));
            }
            return true;
        }
        proof {
            assert(lv[i as int].1 == v@[i as int].orders@);
        }
        i = i + 1;
    }
    proof {
        lemma_first_index_unique(lv, level_has_id(id), v.len() as int);
    }
    false
}

/// Takes the order with identifier `id` out of the level for `price`.
fn remove_in(v: &mut Vec<PriceLevel>, price: Dec, id: OrderId, side: OrderSide) -> (r: Option<Order>)
    requires
        side_wf(levels_of(old(v)@), side),
        price.wf(),
    ensures
        side_wf(levels_of(final(v)@), side),
        r == removed_from_side(levels_of(old(v)@), price, id),
        levels_of(final(v)@) == remove_from_side(levels_of(old(v)@), price, id),
{
    let ghost lv = levels_of(v@);
    proof {
        lemma_side_vec(v@, side);
    }
    let (i, found) = find_level(v, price);
    if !found {
        return None;
    }
    proof {
        assert(lv[i as int].1 == v@[i as int].orders@);
    }
    let k = position_in(&v[i].orders, id);
    if k >= v[i].orders.len() {
        return None;
    }
    let mut lvl = v.remove(i);
    let o = lvl.orders.remove(k);
    v.insert(i, lvl);
    proof {
        let rest = lv[i as int].1.remove(k as int);
        assert(levels_of(v@) =~= lv.update(i as int, (lv[i as int].0, rest)));
        assert forall|q: int| 0 <= q < rest.len() implies order_fits_level(
            #[trigger] rest[q],
            lv[i as int].0,
            side,
        ) by {
            if q < k {
                assert(rest[q] == lv[i as int].1[q]);
            } else {
                assert(rest[q] == lv[i as int].1[q + 1]);
            }
        }
        lemma_side_wf_update(lv, side, i as int, rest);
    }
    Some(o)
}

/// Takes the oldest order out of the level for `price`, dropping the level
/// when it becomes empty.
fn cancel_front_in(v: &mut Vec<PriceLevel>, price: Dec, side: OrderSide) -> (r: bool)
    requires
        side_wf(levels_of(old(v)@), side),
        price.wf(),
    ensures
        side_wf(levels_of(final(v)@), side),
        r == can_cancel_front(levels_of(old(v)@), price),
        levels_of(final(v)@) == cancel_front(levels_of(old(v)@), price),
{
    let ghost lv = levels_of(v@);
    proof {
        lemma_side_vec(v@, side);
    }
    let (i, found) = find_level(v, price);
    if !found {
        return false;
    }
    proof {
        assert(lv[i as int].1 == v@[i as int].orders@);
    }
    if v[i].orders.len() == 0 {
        return false;
    }
    let mut lvl = v.remove(i);
    lvl.orders.remove(0);
    if lvl.orders.len() == 0 {
        proof {
            assert(levels_of(v@) =~= lv.remove(i as int));
            lemma_side_wf_remove(lv, side, i as int);
        }
    } else {
        v.insert(i, lvl);
        proof {
            let rest = lv[i as int].1.drop_first();
            assert(levels_of(v@) =~= lv.update(i as int, (lv[i as int].0, rest)));
            assert forall|q: int| 0 <= q < rest.len() implies order_fits_level(
                #[trigger] rest[q],
                lv[i as int].0,
                side,
            ) by {
                assert(rest[q] == lv[i as int].1[q + 1]);
            }
            lemma_side_wf_update(lv, side, i as int, rest);
        }
    }
    true
}

/// Copies of the orders of `orders` placed by `user`, appended to `out`.
fn push_user_orders(orders: &Vec<Order>, user: &str, out: &mut Vec<Order>)
    ensures
        same_orders(final(out)@, old(out)@ + orders_of_user(orders@, user@)),
{
    let ghost start = out@;
    let mut k: usize = 0;
    while k < orders.len()
        invariant
            0 <= k <= orders.len(),
            same_orders(out@, start + orders_of_user(orders@.take(k as int), user@)),
        decreases orders.len() - k,
    {
        proof {
            assert(orders@.take(k + 1).drop_last() =~= orders@.take(k as int));
            assert(orders@.take(k + 1).last() == orders@[k as int]);
        }
        if str_eq(orders[k].user.as_str(), user) {
            out.push(orders[k].duplicate());
            proof {
                let prev = start + orders_of_user(orders@.take(k as int), user@);
                let next = start + orders_of_user(orders@.take(k + 1), user@);
                assert(next =~= prev.push(orders@[k as int]));
            }
        } else {
            proof {
                assert(start + orders_of_user(orders@.take(k + 1), user@) =~= start
                    + orders_of_user(orders@.take(k as int), user@));
            }
        }
        k = k + 1;
    }
    proof {
        assert(orders@.take(orders.len() as int) =~= orders@);
    }
}

/// Copies of the orders of the side `v` placed by `user`, appended to `out`.
fn push_side_user_orders(v: &Vec<PriceLevel>, user: &str, out: &mut Vec<Order>)
    ensures
        same_orders(final(out)@, old(out)@ + side_orders_of_user(levels_of(v@), user@)),
{
    let ghost start = out@;
    let ghost lv = levels_of(v@);
    let mut i: usize = 0;
    while i < v.len()
        invariant
            0 <= i <= v.len(),
            lv == levels_of(v@),
            same_orders(out@, start + side_orders_of_user(lv.take(i as int), user@)),
        decreases v.len() - i,
    {
        let ghost before = out@;
        push_user_orders(&v[i].orders, user, out);
        proof {
            assert(lv.take(i + 1).drop_last() =~= lv.take(i as int));
            assert(lv.take(i + 1).last() == lv[i as int]);
            assert(lv[i as int].1 == v@[i as int].orders@);
            let a = start + side_orders_of_user(lv.take(i as int), user@);
            let b = orders_of_user(lv[i as int].1, user@);
            assert(start + side_orders_of_user(lv.take(i + 1), user@) =~= a + b);
            assert forall|q: int| 0 <= q < out@.len() implies (#[trigger] out@[q]).same_as((a + b)[q]) by {
                assert(out@[q].same_as((before + b)[q]));
                if q < a.len() {
                    assert(before[q].same_as(a[q]));
                }
            }
        }
        i = i + 1;
    }
    proof {
        assert(lv.take(v.len() as int) =~= lv);
    }
}

/// Whether `level_total(orders)` can be computed without overflow.
fn level_total_checks(orders: &Vec<Order>) -> (r: bool)
    requires
        forall|k: int| 0 <= k < orders.len() ==> (#[trigger] orders[k]).wf(),
    ensures
        r == level_total_ok(orders@),
{
    let mut acc = Dec::zero();
    let mut k: usize = 0;
    while k < orders.len()
        invariant
            0 <= k <= orders.len(),
            forall|q: int| 0 <= q < orders.len() ==> (#[trigger] orders[q]).wf(),
            level_total_ok(orders@.take(k as int)),
            acc == level_total(orders@.take(k as int)),
            acc.wf(),
        decreases orders.len() - k,
    {
        proof {
            assert(orders@.take(k + 1).drop_last() =~= orders@.take(k as int));
            assert(orders@.take(k + 1).last() == orders@[k as int]);
        }
        acc = match dec_checked_add(acc, orders[k].remaining) {
            Some(x) => x,
            None => {
                proof {
                    if level_total_ok(orders@) {
                        lemma_total_ok_prefix(orders@, k + 1);
                    }
                }
                return false;
            },
        };
        k = k + 1;
    }
    proof {
        assert(orders@.take(orders.len() as int) =~= orders@);
    }
    true
}

/// Whether every level total of the side `v` can be computed.
fn side_totals_checks(v: &Vec<PriceLevel>, side: OrderSide) -> (r: bool)
    requires
        side_wf(levels_of(v@), side),
    ensures
        r == side_totals_ok(levels_of(v@)),
{
    let ghost lv = levels_of(v@);
    let mut i: usize = 0;
    while i < v.len()
        invariant
            0 <= i <= v.len(),
            lv == levels_of(v@),
            side_wf(lv, side),
            forall|j: int| 0 <= j < i ==> level_total_ok(#[trigger] lv[j].1),
        decreases v.len() - i,
    {
        proof {
            assert forall|k: int| 0 <= k < v@[i as int].orders@.len() implies (
            #[trigger] v@[i as int].orders@[k]).wf() by {
                assert(lv[i as int].1[k] == v@[i as int].orders@[k]);
            }
        }
        if !level_total_checks(&v[i].orders) {
            proof {
                assert(lv[i as int].1 == v@[i as int].orders@);
            }
            return false;
        }
        i = i + 1;
    }
    true
}

/// The total remaining size of a level.
fn total_of(orders: &Vec<Order>) -> (r: Dec)
    requires
        forall|k: int| 0 <= k < orders.len() ==> (#[trigger] orders[k]).wf(),
        level_total_ok(orders@),
    ensures
        r == level_total(orders@),
        r.wf(),
{
    let mut acc = Dec::zero();
    let mut k: usize = 0;
    while k < orders.len()
        invariant
            0 <= k <= orders.len(),
            forall|q: int| 0 <= q < orders.len() ==> (#[trigger] orders[q]).wf(),
            level_total_ok(orders@),
            acc == level_total(orders@.take(k as int)),
            acc.wf(),
        decreases orders.len() - k,
    {
        proof {
            assert(orders@.take(k + 1).drop_last() =~= orders@.take(k as int));
            assert(orders@.take(k + 1).last() == orders@[k as int]);
            lemma_total_ok_prefix(orders@, k + 1);
        }
        acc = acc.plus(orders[k].remaining);
        k = k + 1;
    }
    proof {
        assert(orders@.take(orders.len() as int) =~= orders@);
    }
    acc
}

/// A prefix of a sequence whose total can be computed can be totalled too.
proof fn lemma_total_ok_prefix(orders: Seq<Order>, n: int)
    requires
        level_total_ok(orders),
        0 <= n <= orders.len(),
    ensures
        level_total_ok(orders.take(n)),
    decreases orders.len(),
{
    if n < orders.len() {
        assert(orders.drop_last().take(n) =~= orders.take(n));
        lemma_total_ok_prefix(orders.drop_last(), n);
    } else {
        assert(orders.take(n) =~= orders);
    }
}

/// (price, total) of each level of `v`, from the highest price down when
/// `descending`, else from the lowest up; at most `depth` of them.
fn snapshot_side(v: &Vec<PriceLevel>, depth: usize, descending: bool, side: OrderSide) -> (r: Vec<(Dec, Dec)>)
    requires
        side_wf(levels_of(v@), side),
        side_totals_ok(levels_of(v@)),
    ensures
        r@ == take_upto(
            if descending {
                totals(levels_of(v@)).reverse()
            } else {
                totals(levels_of(v@))
            },
            depth as int,
        ),
{
    let ghost lv = levels_of(v@);
    let ghost all = if descending {
        totals(lv).reverse()
    } else {
        totals(lv)
    };
    let mut r: Vec<(Dec, Dec)> = Vec::new();
    let mut i: usize = 0;
    while i < v.len()
        invariant
            0 <= i <= v.len(),
            lv == levels_of(v@),
            side_wf(lv, side),
            side_totals_ok(lv),
            all == (if descending {
                totals(lv).reverse()
            } else {
                totals(lv)
            }),
            r@ =~= all.take(i as int),
        decreases v.len() - i,
    {
        let j = if descending {
            v.len() - 1 - i
        } else {
            i
        };
        proof {
            assert(lv[j as int].1 == v@[j as int].orders@);
            assert(level_total_ok(lv[j as int].1));
            assert forall|k: int| 0 <= k < v@[j as int].orders.len() implies (#[trigger] v@[j as int].orders@[k]).wf() by {
                assert(order_fits_level(lv[j as int].1[k], lv[j as int].0, side));
            }
        }
        let t = total_of(&v[j].orders);
        r.push((v[j].price, t));
        proof {
            assert(all[i as int] == (v@[j as int].price, t));
        }
        i = i + 1;
    }
    proof {
        assert(all.take(v.len() as int) =~= all);
    }
    r.truncate(depth);
    r
}

/// `taker` meets the orders of one level (all resting at `lp` on `side`) in
/// turn, for a sweep at `price`: `level_fill`.  Returns the orders that stay
/// and whether no arithmetic overflowed; fills go to the back of `fills`.
#[verifier::loop_isolation(false)]
fn fill_level(
    orders: Vec<Order>,
    lp: Dec,
    price: Dec,
    taker: &mut Order,
    fills: &mut Vec<FillEvent>,
    side: OrderSide,
) -> (r: (Vec<Order>, bool))
    requires
        lp.wf(),
        price.wf(),
        old(taker).wf(),
        fills_wf(old(fills)@),
        forall|q: int| 0 <= q < orders.len() ==> order_fits_level(#[trigger] orders@[q], lp, side),
    ensures
        final(taker).wf(),
        fills_wf(final(fills)@),
        *final(taker) == with_remaining(*old(taker), final(taker).remaining),
        forall|q: int| 0 <= q < r.0.len() ==> order_fits_level(#[trigger] r.0@[q], lp, side),
        r.1 == level_fill(orders@, price, *old(taker)).3,
        r.1 ==> r.0@ == level_fill(orders@, price, *old(taker)).0,
        r.1 ==> *final(taker) == level_fill(orders@, price, *old(taker)).2,
        r.1 ==> same_fills(final(fills)@, old(fills)@ + level_fill(orders@, price, *old(taker)).1),
        r.1 ==> r.0.len() <= orders.len(),
        r.1 && (exists|q: int| 0 <= q < r.0.len() && (#[trigger] r.0@[q]).price.val() == price.val())
            ==> final(taker).remaining.val() <= 0,
        r.1 && (old(taker).remaining.val() <= 0 || lp.val() != price.val()) ==> *final(taker) == *old(
            taker,
        ) && r.0@ == orders@,
{
    let ghost orig = orders@;
    let ghost t0 = *taker;
    let ghost f0 = fills@;
    let mut src = orders;
    let mut kept: Vec<Order> = Vec::new();
    let ghost mut fadd: Seq<FillEvent> = seq![];
    while src.len() > 0
        invariant
            lp.wf(),
            price.wf(),
            taker.wf(),
            *taker == with_remaining(t0, taker.remaining),
            forall|q: int| 0 <= q < src.len() ==> order_fits_level(#[trigger] src@[q], lp, side),
            forall|q: int| 0 <= q < kept.len() ==> order_fits_level(#[trigger] kept@[q], lp, side),
            level_fill(orig, price, t0) == ({
                let r = level_fill(src@, price, *taker);
                (kept@ + r.0, fadd + r.1, r.2, r.3)
            }),
            same_fills(fills@, f0 + fadd),
            fills_wf(fills@),
            kept.len() + src.len() <= orig.len(),
            (exists|q: int| 0 <= q < kept.len() && (#[trigger] kept@[q]).price.val() == price.val())
                ==> taker.remaining.val() <= 0,
            (t0.remaining.val() <= 0 || lp.val() != price.val()) ==> *taker == t0 && kept@ + src@
                == orig,
        decreases src.len(),
    {
        let ghost src_before = src@;
        let ghost kept_before = kept@;
        let ghost t_before = *taker;
        let mut o = src.remove(0);
        proof {
            assert(src_before[0] == o);
            assert(src_before.drop_first() =~= src@);
        }
        if !o.price.same_value(&price) || !taker.remaining.is_positive() {
            kept.push(o);
            proof {
                assert(kept@ =~= kept_before.push(o));
                let r = level_fill(src@, price, *taker);
                assert(level_fill(src_before, price, *taker) == (seq![o] + r.0, r.1, r.2, r.3));
                assert(kept_before + (seq![o] + r.0) =~= kept@ + r.0);
                assert forall|q: int|
                    0 <= q < kept.len() && (#[trigger] kept@[q]).price.val() == price.val() implies taker.remaining.val()
                    <= 0 by {
                    if q < kept_before.len() {
                        assert(kept_before[q] == kept@[q]);
                    }
                }
                if t0.remaining.val() <= 0 || lp.val() != price.val() {
                    assert(kept@ + src@ =~= kept_before + src_before);
                }
            }
            continue ;
        }
        let f = o.remaining.min(taker.remaining);
        let ghost o_rem0 = o.remaining;
        let lev = Dec { mantissa: taker.leverage as i128, scale: 0 };
        let notional = match dec_checked_mul(f, price) {
            Some(x) => x,
            None => {
                kept.push(o);
                kept.append(&mut src);
                proof {
                    assert(level_fill(src_before, price, t_before).3 == false);
                    assert(level_fill(orig, price, t0).3 == level_fill(src_before, price, t_before).3);
                    assert forall|q: int| 0 <= q < kept.len() implies order_fits_level(
                        #[trigger] kept@[q],
                        lp,
                        side,
                    ) by {
                        if q < kept_before.len() {
                            assert(kept@[q] == kept_before[q]);
                        } else {
                            assert(kept@[q] == src_before[q - kept_before.len()]);
                        }
                    }
                }
                return (kept, false);
            },
        };
        let margin = match dec_checked_div(notional, lev) {
            Some(x) => x,
            None => {
                kept.push(o);
                kept.append(&mut src);
                proof {
                    assert(level_fill(src_before, price, t_before).3 == false);
                    assert(level_fill(orig, price, t0).3 == level_fill(src_before, price, t_before).3);
                    assert forall|q: int| 0 <= q < kept.len() implies order_fits_level(
                        #[trigger] kept@[q],
                        lp,
                        side,
                    ) by {
                        if q < kept_before.len() {
                            assert(kept@[q] == kept_before[q]);
                        } else {
                            assert(kept@[q] == src_before[q - kept_before.len()]);
                        }
                    }
                }
                return (kept, false);
            },
        };
        let orem = match dec_checked_sub(o.remaining, f) {
            Some(x) => x,
            None => {
                kept.push(o);
                kept.append(&mut src);
                proof {
                    assert(level_fill(src_before, price, t_before).3 == false);
                    assert(level_fill(orig, price, t0).3 == level_fill(src_before, price, t_before).3);
                    assert forall|q: int| 0 <= q < kept.len() implies order_fits_level(
                        #[trigger] kept@[q],
                        lp,
                        side,
                    ) by {
                        if q < kept_before.len() {
                            assert(kept@[q] == kept_before[q]);
                        } else {
                            assert(kept@[q] == src_before[q - kept_before.len()]);
                        }
                    }
                }
                return (kept, false);
            },
        };
        let trem = match dec_checked_sub(taker.remaining, f) {
            Some(x) => x,
            None => {
                kept.push(o);
                kept.append(&mut src);
                proof {
                    assert(level_fill(src_before, price, t_before).3 == false);
                    assert(level_fill(orig, price, t0).3 == level_fill(src_before, price, t_before).3);
                    assert forall|q: int| 0 <= q < kept.len() implies order_fits_level(
                        #[trigger] kept@[q],
                        lp,
                        side,
                    ) by {
                        if q < kept_before.len() {
                            assert(kept@[q] == kept_before[q]);
                        } else {
                            assert(kept@[q] == src_before[q - kept_before.len()]);
                        }
                    }
                }
                return (kept, false);
            },
        };
        proof {
            lemma_sub_self(o.remaining);
            lemma_sub_self(taker.remaining);
        }
        let fill = FillEvent {
            order_id: taker.id,
            user: taker.user.clone(),
            side: taker.side,
            price: price,
            size: f,
            margin_used: margin,
            leverage: taker.leverage,
        };
        let ghost spec_fill = fill_for(t_before, price, f);
        fills.push(fill);
        o.remaining = orem;
        taker.remaining = trem;
        let consumed = !o.remaining.is_positive();
        proof {
            assert(*taker == with_remaining(t_before, trem));
            let r = level_fill(src@, price, *taker);
            assert(level_fill(src_before, price, t_before) == (
                if consumed {
                    r.0
                } else {
                    seq![o] + r.0
                },
                seq![spec_fill] + r.1,
                r.2,
                r.3,
            ));
            assert(fills@.last().same_as(spec_fill));
        }
        if !consumed {
            kept.push(o);
        }
        proof {
            let r = level_fill(src@, price, *taker);
            let fadd_new = fadd.push(spec_fill);
            if consumed {
                assert(kept@ =~= kept_before);
                assert(kept_before + r.0 =~= kept@ + r.0);
            } else {
                assert(kept@ =~= kept_before.push(o));
                assert(kept_before + (seq![o] + r.0) =~= kept@ + r.0);
            }
            assert(fadd + (seq![spec_fill] + r.1) =~= fadd_new + r.1);
            assert forall|q: int| 0 <= q < fills@.len() implies (#[trigger] fills@[q]).same_as(
                (f0 + fadd_new)[q],
            ) by {
                if q < fills@.len() - 1 {
                    assert((f0 + fadd_new)[q] == (f0 + fadd)[q]);
                }
            }
            // the trade leaves either the resting order or the taker with nothing
            if f != o_rem0 {
                assert(f == t_before.remaining);
                assert(trem.val() == 0);
            }
            assert forall|q: int|
                0 <= q < kept.len() && (#[trigger] kept@[q]).price.val() == price.val() implies taker.remaining.val()
                <= 0 by {
                if q < kept_before.len() {
                    assert(kept_before[q] == kept@[q]);
                }
            }
            fadd = fadd_new;
        }
    }
    proof {
        assert(kept@ + seq![] =~= kept@);
        assert(fadd + seq![] =~= fadd);
    }
    (kept, true)
}

/// A sweep of the side `v` at `price`: `side_sweep`.  Returns whether no
/// arithmetic overflowed.
#[verifier::loop_isolation(false)]
#[verifier::spinoff_prover]
#[verifier::rlimit(40)]
fn sweep_levels(
    v: &mut Vec<PriceLevel>,
    price: Dec,
    taker: &mut Order,
    fills: &mut Vec<FillEvent>,
    side: OrderSide,
) -> (ok: bool)
    requires
        side_wf(levels_of(old(v)@), side),
        price.wf(),
        old(taker).wf(),
        fills_wf(old(fills)@),
    ensures
        side_wf(levels_of(final(v)@), side),
        final(taker).wf(),
        fills_wf(final(fills)@),
        *final(taker) == with_remaining(*old(taker), final(taker).remaining),
        ok == side_sweep(levels_of(old(v)@), price, *old(taker)).3,
        ok ==> levels_of(final(v)@) == side_sweep(levels_of(old(v)@), price, *old(taker)).0,
        ok ==> *final(taker) == side_sweep(levels_of(old(v)@), price, *old(taker)).2,
        ok ==> same_fills(
            final(fills)@,
            old(fills)@ + side_sweep(levels_of(old(v)@), price, *old(taker)).1,
        ),
        ok ==> final(v).len() <= old(v).len(),
        ok && old(taker).remaining.val() > 0 && (exists|b: int|
            0 <= b < old(v).len() && (#[trigger] levels_of(old(v)@)[b]).0.val() == price.val())
            ==> final(v).len() < old(v).len() || final(taker).remaining.val() <= 0,
{
    let ghost lv0 = levels_of(v@);
    let ghost t0 = *taker;
    let ghost f0 = fills@;
    let mut src: Vec<PriceLevel> = Vec::new();
    std::mem::swap(&mut src, v);
    let ghost mut fadd: Seq<FillEvent> = seq![];
    let ghost mut n: int = 0;
    while src.len() > 0
        invariant
            price.wf(),
            taker.wf(),
            *taker == with_remaining(t0, taker.remaining),
            0 <= n <= lv0.len(),
            levels_of(src@) == lv0.skip(n),
            side_wf(lv0, side),
            side_wf(levels_of(v@), side),
            forall|a: int, b: int|
                0 <= a < v.len() && 0 <= b < src.len() ==> (#[trigger] v@[a]).price.val() < (
                #[trigger] src@[b]).price.val(),
            side_sweep(lv0, price, t0) == ({
                let r = side_sweep(levels_of(src@), price, *taker);
                (levels_of(v@) + r.0, fadd + r.1, r.2, r.3)
            }),
            same_fills(fills@, f0 + fadd),
            fills_wf(fills@),
            v.len() <= n,
            (forall|b: int| 0 <= b < n ==> (#[trigger] lv0[b]).0.val() != price.val()) ==> *taker
                == t0,
            t0.remaining.val() > 0 && (exists|b: int|
                0 <= b < n && (#[trigger] lv0[b]).0.val() == price.val()) ==> v.len() < n
                || taker.remaining.val() <= 0,
        decreases src.len(),
    {
        let ghost src_before = src@;
        let ghost v_before = v@;
        let ghost t_before = *taker;
        let ghost fills_before = fills@;
        let lvl = src.remove(0);
        proof {
            assert(src_before[0] == lvl);
            assert(src_before.drop_first() =~= src@);
            assert(levels_of(src_before)[0] == lv0[n]);
            assert(levels_of(src_before).drop_first() =~= levels_of(src@));
            assert(lv0.skip(n).drop_first() =~= lv0.skip(n + 1));
            assert(levels_of(src@) =~= lv0.skip(n + 1));
            assert(lv0[n].0 == lvl.price);
            assert(lv0[n].1 == lvl.orders@);
            assert forall|q: int| 0 <= q < lvl.orders.len() implies order_fits_level(
                #[trigger] lvl.orders@[q],
                lvl.price,
                side,
            ) by {
                assert(order_fits_level(lv0[n].1[q], lv0[n].0, side));
            }
        }
        let PriceLevel { price: lp, orders } = lvl;
        let ghost n_before = n;
        let (kept, ok) = fill_level(orders, lp, price, taker, fills, side);
        let ghost kept_view = kept@;
        if !ok {
            v.push(PriceLevel { price: lp, orders: kept });
            v.append(&mut src);
            proof {
                let nl = levels_of(v@);
                let vb = levels_of(v_before);
                let sa = levels_of(src_before);
                assert forall|a: int| 0 <= a < nl.len() implies #[trigger] nl[a] == (if a < vb.len() {
                    vb[a]
                } else if a == vb.len() {
                    (lp, nl[a].1)
                } else {
                    sa[a - vb.len()]
                }) by {
                    if a < vb.len() {
                        assert(v@[a] == v_before[a]);
                    } else if a > vb.len() {
                        assert(v@[a] == src_before[a - vb.len()]);
                    }
                }
                assert forall|a: int| 0 <= a < nl.len() implies (#[trigger] nl[a]).0.wf() by {
                    if a < vb.len() {
                    } else if a > vb.len() {
                        assert(sa[a - vb.len()] == lv0[n + a - vb.len()]);
                    }
                }
                assert forall|a: int, b: int| 0 <= a < b < nl.len() implies (#[trigger] nl[a]).0.val()
                    < (#[trigger] nl[b]).0.val() by {
                    if a < vb.len() && b == vb.len() {
                        assert(v_before[a].price.val() < src_before[0].price.val());
                    } else if a < vb.len() && b > vb.len() {
                        assert(v_before[a].price.val() < src_before[b - vb.len()].price.val());
                    } else if a >= vb.len() && b > vb.len() {
                        assert(sa[a - vb.len()] == lv0[n + a - vb.len()]);
                        assert(sa[b - vb.len()] == lv0[n + b - vb.len()]);
                    }
                }
                assert forall|a: int, k: int|
                    0 <= a < nl.len() && 0 <= k < nl[a].1.len() implies order_fits_level(
                    #[trigger] nl[a].1[k],
                    nl[a].0,
                    side,
                ) by {
                    if a < vb.len() {
                    } else if a == vb.len() {
                        assert(nl[a].1 == kept@);
                    } else {
                        assert(sa[a - vb.len()] == lv0[n + a - vb.len()]);
                    }
                }
                assert(level_fill(orders@, price, t_before).3 == false);
                assert(levels_of(src_before)[0].1 == orders@);
                assert(side_sweep(levels_of(src_before), price, t_before).3 == false);
            }
            return false;
        }
        let ghost lf = level_fill(orders@, price, t_before);
        let ghost r_after = side_sweep(levels_of(src@), price, *taker);
        proof {
            assert(side_sweep(levels_of(src_before), price, t_before) == (
                if lf.0.len() == 0 {
                    r_after.0
                } else {
                    seq![(lp, lf.0)] + r_after.0
                },
                lf.1 + r_after.1,
                r_after.2,
                r_after.3,
            ));
            assert forall|q: int| 0 <= q < fills@.len() implies (#[trigger] fills@[q]).same_as(
                (f0 + (fadd + lf.1))[q],
            ) by {
                assert(fills@[q].same_as((fills_before + lf.1)[q]));
                if q < fills_before.len() {
                    assert(fills_before[q].same_as((f0 + fadd)[q]));
                    assert((f0 + (fadd + lf.1))[q] == (f0 + fadd)[q]);
                } else {
                    assert((f0 + (fadd + lf.1))[q] == (fills_before + lf.1)[q]);
                }
            }
            assert(fadd + (lf.1 + r_after.1) =~= (fadd + lf.1) + r_after.1);
            if lp.val() == price.val() && t0.remaining.val() > 0 {
                if forall|b: int| 0 <= b < n ==> (#[trigger] lv0[b]).0.val() != price.val() {
                    assert(t_before == t0);
                }
            }
            if lp.val() != price.val() {
                assert(*taker == t_before);
            }
            assert(lv0[n].0 == lp);
            fadd = fadd + lf.1;
            n = n + 1;
        }
        if kept.len() > 0 {
            v.push(PriceLevel { price: lp, orders: kept });
            proof {
                let nl = levels_of(v@);
                let vb = levels_of(v_before);
                assert(nl =~= vb.push((lp, lf.0)));
                assert(vb.push((lp, lf.0)) + r_after.0 =~= vb + (seq![(lp, lf.0)] + r_after.0));
                assert forall|a: int, b: int| 0 <= a < b < nl.len() implies (#[trigger] nl[a]).0.val()
                    < (#[trigger] nl[b]).0.val() by {
                    if b == vb.len() && a < vb.len() {
                        assert(v_before[a].price.val() < src_before[0].price.val());
                    } else if b < vb.len() {
                        assert(nl[a] == vb[a]);
                        assert(nl[b] == vb[b]);
                    }
                }
                assert forall|a: int, k: int|
                    0 <= a < nl.len() && 0 <= k < nl[a].1.len() implies order_fits_level(
                    #[trigger] nl[a].1[k],
                    nl[a].0,
                    side,
                ) by {
                    if a < vb.len() {
                        assert(nl[a] == vb[a]);
                    }
                }
                assert forall|a: int, b: int|
                    0 <= a < v.len() && 0 <= b < src.len() implies (#[trigger] v@[a]).price.val() < (
                    #[trigger] src@[b]).price.val() by {
                    assert(src@[b] == src_before[b + 1]);
                    if a < v_before.len() {
                        assert(v@[a] == v_before[a]);
                    } else {
                        assert(src_before[0].price.val() < src_before[b + 1].price.val()) by {
                            assert(levels_of(src_before)[0] == lv0[n - 1]);
                            assert(levels_of(src_before)[b + 1] == lv0[n + b]);
                        }
                    }
                }
            }
        } else {
            proof {
                assert(levels_of(v@) + r_after.0 =~= levels_of(v_before) + r_after.0);
                assert forall|a: int, b: int|
                    0 <= a < v.len() && 0 <= b < src.len() implies (#[trigger] v@[a]).price.val() < (
                    #[trigger] src@[b]).price.val() by {
                    assert(src@[b] == src_before[b + 1]);
                }
            }
        }
        proof {
            assert(lv0[n_before].0 == lp);
            if t0.remaining.val() > 0 && (exists|b: int|
                0 <= b < n && (#[trigger] lv0[b]).0.val() == price.val()) {
                if lp.val() == price.val() {
                    if kept_view.len() > 0 {
                        assert(order_fits_level(kept_view[0], lp, side));
                        assert(kept_view[0].price.val() == price.val());
                        if forall|b: int| 0 <= b < n_before ==> (#[trigger] lv0[b]).0.val() != price.val() {
                            assert(t_before == t0);
                        }
                        assert(taker.remaining.val() <= 0);
                    }
                } else {
                    let b = choose|b: int| 0 <= b < n && (#[trigger] lv0[b]).0.val() == price.val();
                    assert(b < n_before);
                    assert(*taker == t_before);
                }
            }
        }
    }
    proof {
        assert(levels_of(src@) =~= Seq::<Level>::empty());
        assert(levels_of(v@) + seq![] =~= levels_of(v@));
        assert(fadd + seq![] =~= fadd);
        assert(n == lv0.len());
    }
    true
}

/// The order book of one market.
#[derive(Debug)]
pub struct OrderBook {
    bids: Vec<PriceLevel>,
    asks: Vec<PriceLevel>,
}

impl OrderBook {
    /// The bid side, levels in ascending order of price.
    pub closed spec fn bid_levels(self) -> Seq<Level> {
        levels_of(self.bids@)
    }

    /// The ask side, levels in ascending order of price.
    pub closed spec fn ask_levels(self) -> Seq<Level> {
        levels_of(self.asks@)
    }

    /// Both sides are well formed: bids hold buy orders, asks sell orders.
    pub open spec fn wf(self) -> bool {
        &&& side_wf(self.bid_levels(), OrderSide::Buy)
        &&& side_wf(self.ask_levels(), OrderSide::Sell)
    }

    /// The levels of one side.
    pub open spec fn side(self, side: OrderSide) -> Seq<Level> {
        match side {
            OrderSide::Buy => self.bid_levels(),
            OrderSide::Sell => self.ask_levels(),
        }
    }

    /// An empty book.
    pub fn new() -> (r: OrderBook)
        ensures
            r.wf(),
            r.bid_levels() == Seq::<Level>::empty(),
            r.ask_levels() == Seq::<Level>::empty(),
    {
        let r = OrderBook { bids: Vec::new(), asks: Vec::new() };
        assert(r.bid_levels() =~= Seq::<Level>::empty());
        assert(r.ask_levels() =~= Seq::<Level>::empty());
        r
    }

    /// Rests `order` at the back of the level for its price on its own side.
    pub fn add_order(&mut self, order: Order)
        requires
            old(self).wf(),
            order.wf(),
        ensures
            final(self).wf(),
            final(self).side(order.side) == insert_order(old(self).side(order.side), order),
            final(self).side(opposite(order.side)) == old(self).side(opposite(order.side)),
    {
        match order.side {
            OrderSide::Buy => {
                let mut v: Vec<PriceLevel> = Vec::new();
                std::mem::swap(&mut v, &mut self.bids);
                proof {
                    assert(levels_of(v@) == old(self).bid_levels());
                }
                insert_into(&mut v, order, OrderSide::Buy);
                self.bids = v;
            },
            OrderSide::Sell => {
                let mut v: Vec<PriceLevel> = Vec::new();
                std::mem::swap(&mut v, &mut self.asks);
                proof {
                    assert(levels_of(v@) == old(self).ask_levels());
                }
                insert_into(&mut v, order, OrderSide::Sell);
                self.asks = v;
            },
        }
    }

    /// Cancels the order with identifier `order_id`: the first one found,
    /// looking through the bids then the asks, levels in ascending order of
    /// price.  Its level stays even when it becomes empty.  Returns whether an
    /// order was found.
    pub fn cancel_order(&mut self, order_id: OrderId) -> (r: bool)
        requires
            old(self).wf(),
        ensures
            final(self).wf(),
            r == (side_has_id(old(self).bid_levels(), order_id) || side_has_id(
                old(self).ask_levels(),
                order_id,
            )),
            side_has_id(old(self).bid_levels(), order_id) ==> final(self).bid_levels()
                == cancel_in_side(old(self).bid_levels(), order_id) && final(self).ask_levels()
                == old(self).ask_levels(),
            !side_has_id(old(self).bid_levels(), order_id) ==> final(self).bid_levels() == old(
                self,
            ).bid_levels() && final(self).ask_levels() == cancel_in_side(
                old(self).ask_levels(),
                order_id,
            ),
    {
        let mut v: Vec<PriceLevel> = Vec::new();
        std::mem::swap(&mut v, &mut self.bids);
        let found = cancel_in(&mut v, order_id, OrderSide::Buy);
        self.bids = v;
        if found {
            return true;
        }
        let mut w: Vec<PriceLevel> = Vec::new();
        std::mem::swap(&mut w, &mut self.asks);
        let found_ask = cancel_in(&mut w, order_id, OrderSide::Sell);
        self.asks = w;
        found_ask
    }

    /// Takes the order with identifier `order_id` out of the level for
    /// `price` on side `side`, returning it; the level stays even if empty.
    pub fn remove_order(&mut self, side: OrderSide, price: Dec, order_id: OrderId) -> (r: Option<Order>)
        requires
            old(self).wf(),
            price.wf(),
        ensures
            final(self).wf(),
            r == removed_from_side(old(self).side(side), price, order_id),
            final(self).side(side) == remove_from_side(old(self).side(side), price, order_id),
            final(self).side(opposite(side)) == old(self).side(opposite(side)),
    {
        match side {
            OrderSide::Buy => {
                let mut v: Vec<PriceLevel> = Vec::new();
                std::mem::swap(&mut v, &mut self.bids);
                let r = remove_in(&mut v, price, order_id, OrderSide::Buy);
                self.bids = v;
                r
            },
            OrderSide::Sell => {
                let mut v: Vec<PriceLevel> = Vec::new();
                std::mem::swap(&mut v, &mut self.asks);
                let r = remove_in(&mut v, price, order_id, OrderSide::Sell);
                self.asks = v;
                r
            },
        }
    }

    /// Takes the oldest order out of the level for `price` on side `side`,
    /// dropping the level when it becomes empty.  Returns whether there was
    /// such an order.
    pub fn cancel_random_order(&mut self, side: OrderSide, price: Dec) -> (r: bool)
        requires
            old(self).wf(),
            price.wf(),
        ensures
            final(self).wf(),
            r == can_cancel_front(old(self).side(side), price),
            final(self).side(side) == cancel_front(old(self).side(side), price),
            final(self).side(opposite(side)) == old(self).side(opposite(side)),
    {
        match side {
            OrderSide::Buy => {
                let mut v: Vec<PriceLevel> = Vec::new();
                std::mem::swap(&mut v, &mut self.bids);
                let r = cancel_front_in(&mut v, price, OrderSide::Buy);
                self.bids = v;
                r
            },
            OrderSide::Sell => {
                let mut v: Vec<PriceLevel> = Vec::new();
                std::mem::swap(&mut v, &mut self.asks);
                let r = cancel_front_in(&mut v, price, OrderSide::Sell);
                self.asks = v;
                r
            },
        }
    }

    /// Copies of the resting orders placed by `user`: the bids (levels in
    /// ascending order of price, oldest first), then the asks likewise.
    pub fn user_orders(&self, user: &str) -> (r: Vec<Order>)
        ensures
            same_orders(
                r@,
                side_orders_of_user(self.bid_levels(), user@) + side_orders_of_user(
                    self.ask_levels(),
                    user@,
                ),
            ),
    {
        let mut result: Vec<Order> = Vec::new();
        push_side_user_orders(&self.bids, user, &mut result);
        let ghost mid = result@;
        push_side_user_orders(&self.asks, user, &mut result);
        proof {
            let a = side_orders_of_user(self.bid_levels(), user@);
            let b = side_orders_of_user(self.ask_levels(), user@);
            assert(Seq::<Order>::empty() + a =~= a);
            assert forall|q: int| 0 <= q < result@.len() implies (#[trigger] result@[q]).same_as((a + b)[q]) by {
                assert(result@[q].same_as((mid + b)[q]));
                if q < a.len() {
                    assert(mid[q].same_as(a[q]));
                }
            }
        }
        result
    }

    /// Whether `l2_snapshot` can total every level without overflow.
    pub fn totals_ok(&self) -> (r: bool)
        requires
            self.wf(),
        ensures
            r == (side_totals_ok(self.bid_levels()) && side_totals_ok(self.ask_levels())),
    {
        side_totals_checks(&self.bids, OrderSide::Buy) && side_totals_checks(&self.asks, OrderSide::Sell)
    }

    /// Depth of book: for each level, its price and the sum of the remaining
    /// sizes of its orders; bids from the highest price down, asks from the
    /// lowest up, at most `depth` of each.
    pub fn l2_snapshot(&self, depth: usize) -> (r: (Vec<(Dec, Dec)>, Vec<(Dec, Dec)>))
        requires
            self.wf(),
            side_totals_ok(self.bid_levels()),
            side_totals_ok(self.ask_levels()),
        ensures
            r.0@ == take_upto(totals(self.bid_levels()).reverse(), depth as int),
            r.1@ == take_upto(totals(self.ask_levels()), depth as int),
    {
        let bids = snapshot_side(&self.bids, depth, true, OrderSide::Buy);
        let asks = snapshot_side(&self.asks, depth, false, OrderSide::Sell);
        (bids, asks)
    }

    /// One sweep of the asks at `price` on behalf of the incoming order
    /// `taker`: every ask level, in ascending order of price, meets the taker
    /// (`level_fill`) and goes when left empty.  Fills go to the back of
    /// `fills`.  Returns whether no arithmetic overflowed.
    pub fn iter_asks(&mut self, price: Dec, taker: &mut Order, fills: &mut Vec<FillEvent>) -> (ok: bool)
        requires
            old(self).wf(),
            price.wf(),
            old(taker).wf(),
            fills_wf(old(fills)@),
        ensures
            final(self).wf(),
            final(taker).wf(),
            fills_wf(final(fills)@),
            *final(taker) == with_remaining(*old(taker), final(taker).remaining),
            final(self).bid_levels() == old(self).bid_levels(),
            ok == side_sweep(old(self).ask_levels(), price, *old(taker)).3,
            ok ==> final(self).ask_levels() == side_sweep(old(self).ask_levels(), price, *old(taker)).0,
            ok ==> *final(taker) == side_sweep(old(self).ask_levels(), price, *old(taker)).2,
            ok ==> same_fills(
                final(fills)@,
                old(fills)@ + side_sweep(old(self).ask_levels(), price, *old(taker)).1,
            ),
            ok ==> final(self).ask_levels().len() <= old(self).ask_levels().len(),
            ok && old(taker).remaining.val() > 0 && (exists|b: int|
                0 <= b < old(self).ask_levels().len() && (#[trigger] old(self).ask_levels()[b]).0.val()
                    == price.val()) ==> final(self).ask_levels().len() < old(self).ask_levels().len()
                || final(taker).remaining.val() <= 0,
    {
        let mut v: Vec<PriceLevel> = Vec::new();
        std::mem::swap(&mut v, &mut self.asks);
        let ok = sweep_levels(&mut v, price, taker, fills, OrderSide::Sell);
        self.asks = v;
        ok
    }

    /// One sweep of the bids at `price` on behalf of the incoming order
    /// `taker`, as `iter_asks` does for the asks.
    pub fn iter_bids(&mut self, price: Dec, taker: &mut Order, fills: &mut Vec<FillEvent>) -> (ok: bool)
        requires
            old(self).wf(),
            price.wf(),
            old(taker).wf(),
            fills_wf(old(fills)@),
        ensures
            final(self).wf(),
            final(taker).wf(),
            fills_wf(final(fills)@),
            *final(taker) == with_remaining(*old(taker), final(taker).remaining),
            final(self).ask_levels() == old(self).ask_levels(),
            ok == side_sweep(old(self).bid_levels(), price, *old(taker)).3,
            ok ==> final(self).bid_levels() == side_sweep(old(self).bid_levels(), price, *old(taker)).0,
            ok ==> *final(taker) == side_sweep(old(self).bid_levels(), price, *old(taker)).2,
            ok ==> same_fills(
                final(fills)@,
                old(fills)@ + side_sweep(old(self).bid_levels(), price, *old(taker)).1,
            ),
            ok ==> final(self).bid_levels().len() <= old(self).bid_levels().len(),
            ok && old(taker).remaining.val() > 0 && (exists|b: int|
                0 <= b < old(self).bid_levels().len() && (#[trigger] old(self).bid_levels()[b]).0.val()
                    == price.val()) ==> final(self).bid_levels().len() < old(self).bid_levels().len()
                || final(taker).remaining.val() <= 0,
    {
        let mut v: Vec<PriceLevel> = Vec::new();
        std::mem::swap(&mut v, &mut self.bids);
        let ok = sweep_levels(&mut v, price, taker, fills, OrderSide::Buy);
        self.bids = v;
        ok
    }

    /// The highest bid level price (a level is counted even when empty).
    pub fn best_bid(&self) -> (r: Option<Dec>)
        requires
            self.wf(),
        ensures
            r == (if self.bid_levels().len() == 0 {
                None
            } else {
                Some(self.bid_levels().last().0)
            }),
    {
        if self.bids.len() == 0 {
            None
        } else {
            Some(self.bids[self.bids.len() - 1].price)
        }
    }

    /// The lowest ask level price (a level is counted even when empty).
    pub fn best_ask(&self) -> (r: Option<Dec>)
        requires
            self.wf(),
        ensures
            r == (if self.ask_levels().len() == 0 {
                None
            } else {
                Some(self.ask_levels()[0].0)
            }),
    {
        if self.asks.len() == 0 {
            None
        } else {
            Some(self.asks[0].price)
        }
    }

    /// The bid level prices, ascending.
    pub fn bid_prices(&self) -> (r: Vec<Dec>)
        ensures
            r@ == prices_of(self.bid_levels()),
    {
        collect_prices(&self.bids)
    }

    /// The ask level prices, ascending.
    pub fn ask_prices(&self) -> (r: Vec<Dec>)
        ensures
            r@ == prices_of(self.ask_levels()),
    {
        collect_prices(&self.asks)
    }
}

fn collect_prices(v: &Vec<PriceLevel>) -> (r: Vec<Dec>)
    ensures
        r@ == prices_of(levels_of(v@)),
{
    let mut r: Vec<Dec> = Vec::new();
    let mut i: usize = 0;
    while i < v.len()
        invariant
            0 <= i <= v.len(),
            r@ =~= prices_of(levels_of(v@)).take(i as int),
        decreases v.len() - i,
    {
        r.push(v[i].price);
        i = i + 1;
    }
    assert(prices_of(levels_of(v@)).take(v.len() as int) =~= prices_of(levels_of(v@)));
    r
}

/// Adds `order` to the sorted levels `v` of side `side`.
fn insert_into(v: &mut Vec<PriceLevel>, order: Order, side: OrderSide)
    requires
        side_wf(levels_of(old(v)@), side),
        order.wf(),
        order.side == side,
    ensures
        side_wf(levels_of(final(v)@), side),
        levels_of(final(v)@) == insert_order(levels_of(old(v)@), order),
{
    let ghost lv = levels_of(v@);
    proof {
        assert forall|i: int| 0 <= i < v.len() implies (#[trigger] v[i]).price.wf() by {
            assert(lv[i].0 == v[i].price);
        }
        assert forall|i: int, j: int| 0 <= i < j < v.len() implies (#[trigger] v[i]).price.val() < (
        #[trigger] v[j]).price.val() by {
            assert(lv[i].0 == v[i].price);
            assert(lv[j].0 == v[j].price);
        }
    }
    let (i, found) = find_level(v, order.price);
    proof {
        lemma_lower_bound(lv, order.price);
    }
    let ghost o = order;
    if found {
        let mut lvl = v.remove(i);
        lvl.orders.push(order);
        v.insert(i, lvl);
        proof {
            let nl = levels_of(v@);
            let expect = lv.update(i as int, (lv[i as int].0, lv[i as int].1.push(o)));
            assert(nl =~= expect);
            assert forall|a: int, k: int|
                0 <= a < nl.len() && 0 <= k < nl[a].1.len() implies order_fits_level(
                #[trigger] nl[a].1[k],
                nl[a].0,
                side,
            ) by {
                if a == i {
                    if k < lv[a].1.len() {
                        assert(nl[a].1[k] == lv[a].1[k]);
                    }
                } else {
                    assert(nl[a] == lv[a]);
                }
            }
            assert forall|a: int, b: int| 0 <= a < b < nl.len() implies (#[trigger] nl[a]).0.val() < (
            #[trigger] nl[b]).0.val() by {
                assert(nl[a].0 == lv[a].0);
                assert(nl[b].0 == lv[b].0);
            }
        }
    } else {
        let price = order.price;
        let mut orders: Vec<Order> = Vec::new();
        orders.push(order);
        v.insert(i, PriceLevel { price, orders });
        proof {
            let nl = levels_of(v@);
            let expect = lv.insert(i as int, (o.price, seq![o]));
            assert(nl =~= expect);
            if i < lv.len() {
                assert(lv[i as int].0.val() > o.price.val());
            }
            assert forall|a: int, k: int|
                0 <= a < nl.len() && 0 <= k < nl[a].1.len() implies order_fits_level(
                #[trigger] nl[a].1[k],
                nl[a].0,
                side,
            ) by {
                if a < i {
                    assert(nl[a] == lv[a]);
                } else if a > i {
                    assert(nl[a] == lv[a - 1]);
                } else {
                    assert(nl[a].1 =~= seq![o]);
                }
            }
            assert forall|a: int, b: int| 0 <= a < b < nl.len() implies (#[trigger] nl[a]).0.val() < (
            #[trigger] nl[b]).0.val() by {
                if a < i {
                    assert(nl[a] == lv[a]);
                } else if a > i {
                    assert(nl[a] == lv[a - 1]);
                }
                if b < i {
                    assert(nl[b] == lv[b]);
                } else if b > i {
                    assert(nl[b] == lv[b - 1]);
                }
            }
        }
    }
}

} // verus!
