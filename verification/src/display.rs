//! What the screens show, computed from the state: candles grouped to fit
//! the chart, the chart's price range, the order book's depth ladder, and
//! the account's totals.
use vstd::prelude::*;
use crate::candles::Candle;
use crate::orderbook::OrderBook;
use crate::user::{Position, UserAccount};
use crate::decimal::{
    Dec, add_ok, ddiff, div_ok, dquot, dsum, sub_ok, dec_checked_add, dec_checked_div,
    dec_checked_sub,
};

verus! {

/// `Ord::max` on decimals: `b` when it is at least `a` in value, `a`
/// otherwise.
pub open spec fn dec_max(a: Dec, b: Dec) -> Dec {
    if a.val() <= b.val() {
        b
    } else {
        a
    }
}

/// The largest high of `cs`, starting from zero.
pub open spec fn highest(cs: Seq<Candle>) -> Dec
    decreases cs.len(),
{
    if cs.len() == 0 {
        Dec { mantissa: 0, scale: 0 }
    } else {
        dec_max(highest(cs.drop_last()), cs.last().high)
    }
}

/// The total volume of `cs`, starting from zero.
pub open spec fn volume_sum(cs: Seq<Candle>) -> Dec
    decreases cs.len(),
{
    if cs.len() == 0 {
        Dec { mantissa: 0, scale: 0 }
    } else {
        dsum(volume_sum(cs.drop_last()), cs.last().volume)
    }
}

/// `volume_sum` does not overflow.
pub open spec fn volume_sum_ok(cs: Seq<Candle>) -> bool
    decreases cs.len(),
{
    if cs.len() == 0 {
        true
    } else {
        volume_sum_ok(cs.drop_last()) && add_ok(volume_sum(cs.drop_last()), cs.last().volume)
    }
}

/// The candle drawn for the group `cs` (not empty): the first open, the
/// largest high (from zero), the first low, the last close, the total volume
/// and the last time.
pub open spec fn group_candle(cs: Seq<Candle>) -> Candle {
    Candle {
        open: cs[0].open,
        high: highest(cs),
        low: cs[0].low,
        close: cs.last().close,
        volume: volume_sum(cs),
        timestamp: cs.last().timestamp,
    }
}

/// The `g`-th group of `cs` cut into runs of `n` (the last may be shorter).
pub open spec fn visual_group(cs: Seq<Candle>, n: int, g: int) -> Seq<Candle> {
    cs.subrange(
        g * n,
        if g * n + n <= cs.len() {
            g * n + n
        } else {
            cs.len() as int
        },
    )
}

/// The number of chart slots asked for, at least one.
pub open spec fn slot_target(max_slots: usize) -> int {
    if max_slots == 0 {
        1
    } else {
        max_slots as int
    }
}

/// A volume sum that overflows for a prefix overflows for the whole.
proof fn lemma_volume_ok_prefix(cs: Seq<Candle>, k: int)
    requires
        0 <= k <= cs.len(),
        volume_sum_ok(cs),
    ensures
        volume_sum_ok(cs.take(k)),
    decreases cs.len(),
{
    if k < cs.len() {
        assert(cs.drop_last().take(k) =~= cs.take(k));
        lemma_volume_ok_prefix(cs.drop_last(), k);
    } else {
        assert(cs.take(k) =~= cs);
    }
}

/// The candles to draw in at most `max_slots` slots (at least one): all of
/// them when they fit, otherwise groups of `len / slots` consecutive candles
/// (the last group possibly shorter), each drawn as `group_candle`.  `None`
/// when a group's total volume overflows.
#[verifier::loop_isolation(false)]
pub fn build_visual_candles(candles: &Vec<Candle>, max_slots: usize) -> (r: Option<Vec<Candle>>)
    requires
        forall|q: int| 0 <= q < candles@.len() ==> (#[trigger] candles@[q]).wf(),
    ensures
        candles@.len() <= slot_target(max_slots) ==> (r matches Some(v) && v@ == candles@),
        candles@.len() > slot_target(max_slots) ==> ({
            let n = candles@.len() as int / slot_target(max_slots);
            &&& r is Some == forall|g: int|
                0 <= g && g * n < candles@.len() ==> volume_sum_ok(
                    #[trigger] visual_group(candles@, n, g),
                )
            &&& r matches Some(v) ==> {
                &&& (v@.len() - 1) * n < candles@.len() <= v@.len() * n
                &&& forall|g: int|
                    0 <= g < v@.len() ==> #[trigger] v@[g] == group_candle(
                        visual_group(candles@, n, g),
                    )
            }
        }),
{
    let target = if max_slots == 0 {
        1
    } else {
        max_slots
    };
    let len = candles.len();
    if len <= target {
        let mut all: Vec<Candle> = Vec::new();
        let mut k: usize = 0;
        while k < len
            invariant
                0 <= k <= len,
                len == candles@.len(),
                all@ == candles@.take(k as int),
            decreases len - k,
        {
            all.push(candles[k]);
            proof {
                assert(candles@.take(k as int + 1) =~= candles@.take(k as int).push(candles@[k as int]));
            }
            k = k + 1;
        }
        proof {
            assert(candles@.take(len as int) =~= candles@);
        }
        return Some(all);
    }
    let n = len / target;
    proof {
        assert(n >= 1) by (nonlinear_arith)
            requires
                len > target,
                target >= 1,
                n == len / target,
        ;
    }
    let ghost cs = candles@;
    let mut result: Vec<Candle> = Vec::new();
    let mut i: usize = 0;
    proof {
        assert(0 * n == 0) by (nonlinear_arith);
    }
    while i < len
        invariant
            n >= 1,
            len == cs.len(),
            cs == candles@,
            n == len / target,
            target == slot_target(max_slots),
            len > target,
            i <= len,
            i == len || i == result@.len() * n,
            result@.len() * n >= i,
            result@.len() > 0 ==> (result@.len() - 1) * n < len,
            forall|g: int| 0 <= g < result@.len() ==> volume_sum_ok(#[trigger] visual_group(cs, n as int, g)),
            forall|g: int|
                0 <= g < result@.len() ==> #[trigger] result@[g] == group_candle(
                    visual_group(cs, n as int, g),
                ),
        decreases len - i,
    {
        let end = if n <= len - i {
            i + n
        } else {
            len
        };
        let ghost g = result@.len() as int;
        let ghost grp = visual_group(cs, n as int, g);
        proof {
            assert(g * n == i);
            assert(grp =~= cs.subrange(i as int, end as int));
        }
        let mut high = Dec::zero();
        let mut volume = Dec::zero();
        let mut j: usize = i;
        while j < end
            invariant
                i <= j <= end,
                end <= len,
                len == cs.len(),
                cs == candles@,
                i < end,
                grp == cs.subrange(i as int, end as int),
                high == highest(cs.subrange(i as int, j as int)),
                volume == volume_sum(cs.subrange(i as int, j as int)),
                volume_sum_ok(cs.subrange(i as int, j as int)),
                high.wf(),
                volume.wf(),
            decreases end - j,
        {
            let c = candles[j];
            proof {
                assert(cs[j as int].wf());
                assert(cs.subrange(i as int, j as int + 1).drop_last() =~= cs.subrange(i as int, j as int));
                assert(cs.subrange(i as int, j as int + 1).last() == cs[j as int]);
            }
            if high.le(&c.high) {
                high = c.high;
            }
            volume = match dec_checked_add(volume, c.volume) {
                Some(x) => x,
                None => {
                    proof {
                        assert(cs.subrange(i as int, j as int + 1) =~= grp.take(j - i + 1));
                        if volume_sum_ok(grp) {
                            lemma_volume_ok_prefix(grp, j - i + 1);
                        }
                        assert(g * n < cs.len());
                    }
                    return None;
                },
            };
            j = j + 1;
        }
        let first = candles[i];
        let last = candles[end - 1];
        let v = Candle {
            open: first.open,
            high,
            low: first.low,
            close: last.close,
            volume,
            timestamp: last.timestamp,
        };
        proof {
            assert(grp[0] == first);
            assert(grp.last() == last);
        }
        result.push(v);
        i = end;
        proof {
            assert forall|q: int| 0 <= q < result@.len() implies #[trigger] result@[q] == group_candle(
                visual_group(cs, n as int, q),
            ) by {
                if q < g {
                    assert(result@[q] == result@.drop_last()[q]);
                }
            }
            assert((g + 1) * n == g * n + n) by (nonlinear_arith);
        }
    }
    proof {
        let k = result@.len() as int;
        assert forall|g: int| 0 <= g && g * n < len implies volume_sum_ok(
            #[trigger] visual_group(cs, n as int, g),
        ) by {
            if g >= k {
                assert(g * n >= k * n) by (nonlinear_arith)
                    requires
                        g >= k,
                        n >= 1,
                ;
            }
        }
    }
    Some(result)
}

/// `v` when it is strictly below `acc` in value, `acc` otherwise.
pub open spec fn lower_of(acc: Dec, v: Dec) -> Dec {
    if v.val() < acc.val() {
        v
    } else {
        acc
    }
}

/// `v` when it is strictly above `acc` in value, `acc` otherwise.
pub open spec fn higher_of(acc: Dec, v: Dec) -> Dec {
    if v.val() > acc.val() {
        v
    } else {
        acc
    }
}

/// The lowest low of `cs`, from `acc` (the first lowest one kept on ties).
pub open spec fn lowest_low(cs: Seq<Candle>, acc: Dec) -> Dec
    decreases cs.len(),
{
    if cs.len() == 0 {
        acc
    } else {
        lower_of(lowest_low(cs.drop_last(), acc), cs.last().low)
    }
}

/// The highest high of `cs`, from `acc`.
pub open spec fn highest_high(cs: Seq<Candle>, acc: Dec) -> Dec
    decreases cs.len(),
{
    if cs.len() == 0 {
        acc
    } else {
        higher_of(highest_high(cs.drop_last(), acc), cs.last().high)
    }
}

/// The largest volume of `cs`, from zero.
pub open spec fn largest_volume(cs: Seq<Candle>) -> Dec
    decreases cs.len(),
{
    if cs.len() == 0 {
        Dec { mantissa: 0, scale: 0 }
    } else {
        higher_of(largest_volume(cs.drop_last()), cs.last().volume)
    }
}

/// The lowest positive value of `vs` below `acc`, from `acc`.
pub open spec fn lowest_positive(vs: Seq<Dec>, acc: Dec) -> Dec
    decreases vs.len(),
{
    if vs.len() == 0 {
        acc
    } else {
        let r = lowest_positive(vs.drop_last(), acc);
        if vs.last().val() > 0 {
            lower_of(r, vs.last())
        } else {
            r
        }
    }
}

/// The highest value of `vs`, from `acc`.
pub open spec fn highest_value(vs: Seq<Dec>, acc: Dec) -> Dec
    decreases vs.len(),
{
    if vs.len() == 0 {
        acc
    } else {
        higher_of(highest_value(vs.drop_last(), acc), vs.last())
    }
}

/// The lowest and highest price the chart must show: the candles' lows and
/// highs, the positive values of the average line `ema` (any value for the
/// highest), and the mark.
pub open spec fn price_bounds(cs: Seq<Candle>, ema: Seq<Dec>, mark: Dec) -> (Dec, Dec) {
    let lo = lowest_positive(ema, lowest_low(cs, cs[0].low));
    let hi = highest_value(ema, highest_high(cs, cs[0].high));
    (lower_of(lo, mark), higher_of(hi, mark))
}

/// The margin left above and below the prices: a twentieth of their range,
/// or one when the range is zero.
pub open spec fn padding(lo: Dec, hi: Dec) -> Dec {
    if ddiff(hi, lo).val() == 0 {
        Dec { mantissa: 1, scale: 0 }
    } else {
        dquot(ddiff(hi, lo), Dec { mantissa: 20, scale: 0 })
    }
}

/// The chart's range from `lo` to `hi`: padded below and above, and its
/// width.
pub open spec fn chart_range(lo: Dec, hi: Dec) -> (Dec, Dec, Dec) {
    let pad = padding(lo, hi);
    let bottom = ddiff(lo, pad);
    let top = dsum(hi, pad);
    (bottom, top, ddiff(top, bottom))
}

/// `chart_range` does not overflow.
pub open spec fn chart_range_ok(lo: Dec, hi: Dec) -> bool {
    let pad = padding(lo, hi);
    &&& sub_ok(hi, lo)
    &&& (ddiff(hi, lo).val() != 0 ==> div_ok(ddiff(hi, lo), Dec { mantissa: 20, scale: 0 }))
    &&& sub_ok(lo, pad)
    &&& add_ok(hi, pad)
    &&& sub_ok(dsum(hi, pad), ddiff(lo, pad))
}

/// The price scale of the chart of `candles` (not empty) with average line
/// `ema` and mark `mark`: the bottom and top price (`price_bounds` padded by
/// `chart_range`), the width between them, and the largest candle volume.
/// `None` when that overflows.
pub fn chart_price_range(candles: &Vec<Candle>, ema: &Vec<Dec>, mark: Dec) -> (r: Option<(Dec, Dec, Dec, Dec)>)
    requires
        candles@.len() > 0,
        forall|q: int| 0 <= q < candles@.len() ==> (#[trigger] candles@[q]).wf(),
        forall|q: int| 0 <= q < ema@.len() ==> (#[trigger] ema@[q]).wf(),
        mark.wf(),
    ensures
        ({
            let b = price_bounds(candles@, ema@, mark);
            let c = chart_range(b.0, b.1);
            &&& r is Some == chart_range_ok(b.0, b.1)
            &&& r matches Some(x) ==> x == (c.0, c.1, c.2, largest_volume(candles@))
        }),
{
    let ghost cs = candles@;
    let mut min_price = candles[0].low;
    let mut max_price = candles[0].high;
    let mut max_volume = Dec::zero();
    proof {
        assert(cs[0].wf());
    }
    let mut k: usize = 0;
    while k < candles.len()
        invariant
            0 <= k <= cs.len(),
            cs == candles@,
            cs.len() > 0,
            forall|q: int| 0 <= q < cs.len() ==> (#[trigger] cs[q]).wf(),
            min_price == lowest_low(cs.take(k as int), cs[0].low),
            max_price == highest_high(cs.take(k as int), cs[0].high),
            max_volume == largest_volume(cs.take(k as int)),
            min_price.wf(),
            max_price.wf(),
            max_volume.wf(),
        decreases cs.len() - k,
    {
        let c = candles[k];
        proof {
            assert(cs[k as int].wf());
            assert(cs.take(k as int + 1).drop_last() =~= cs.take(k as int));
            assert(cs.take(k as int + 1).last() == cs[k as int]);
        }
        if c.low.lt(&min_price) {
            min_price = c.low;
        }
        if max_price.lt(&c.high) {
            max_price = c.high;
        }
        if max_volume.lt(&c.volume) {
            max_volume = c.volume;
        }
        k = k + 1;
    }
    proof {
        assert(cs.take(cs.len() as int) =~= cs);
    }
    let ghost lo0 = min_price;
    let ghost hi0 = max_price;
    let ghost vs = ema@;
    let zero = Dec::zero();
    let mut k: usize = 0;
    while k < ema.len()
        invariant
            0 <= k <= vs.len(),
            vs == ema@,
            forall|q: int| 0 <= q < vs.len() ==> (#[trigger] vs[q]).wf(),
            min_price == lowest_positive(vs.take(k as int), lo0),
            max_price == highest_value(vs.take(k as int), hi0),
            min_price.wf(),
            max_price.wf(),
            zero.wf(),
            zero.val() == 0,
        decreases vs.len() - k,
    {
        let v = ema[k];
        proof {
            assert(vs[k as int].wf());
            assert(vs.take(k as int + 1).drop_last() =~= vs.take(k as int));
            assert(vs.take(k as int + 1).last() == vs[k as int]);
        }
        if zero.lt(&v) && v.lt(&min_price) {
            min_price = v;
        }
        if max_price.lt(&v) {
            max_price = v;
        }
        k = k + 1;
    }
    proof {
        assert(vs.take(vs.len() as int) =~= vs);
    }
    if mark.lt(&min_price) {
        min_price = mark;
    }
    if max_price.lt(&mark) {
        max_price = mark;
    }
    let range = match dec_checked_sub(max_price, min_price) {
        Some(x) => x,
        None => return None,
    };
    let pad = if range.same_value(&zero) {
        Dec::one()
    } else {
        match dec_checked_div(range, Dec { mantissa: 20, scale: 0 }) {
            Some(x) => x,
            None => return None,
        }
    };
    let bottom = match dec_checked_sub(min_price, pad) {
        Some(x) => x,
        None => return None,
    };
    let top = match dec_checked_add(max_price, pad) {
        Some(x) => x,
        None => return None,
    };
    let width = match dec_checked_sub(top, bottom) {
        Some(x) => x,
        None => return None,
    };
    Some((bottom, top, width, max_volume))
}

/// The total of the sizes of `levels`, from zero.
pub open spec fn cum_total(levels: Seq<(Dec, Dec)>) -> Dec
    decreases levels.len(),
{
    if levels.len() == 0 {
        Dec { mantissa: 0, scale: 0 }
    } else {
        dsum(cum_total(levels.drop_last()), levels.last().1)
    }
}

/// `cum_total` does not overflow.
pub open spec fn cum_ok(levels: Seq<(Dec, Dec)>) -> bool
    decreases levels.len(),
{
    if levels.len() == 0 {
        true
    } else {
        cum_ok(levels.drop_last()) && add_ok(cum_total(levels.drop_last()), levels.last().1)
    }
}

/// A total that overflows for a prefix overflows for the whole.
proof fn lemma_cum_ok_prefix(levels: Seq<(Dec, Dec)>, k: int)
    requires
        0 <= k <= levels.len(),
        cum_ok(levels),
    ensures
        cum_ok(levels.take(k)),
    decreases levels.len(),
{
    if k < levels.len() {
        assert(levels.drop_last().take(k) =~= levels.take(k));
        lemma_cum_ok_prefix(levels.drop_last(), k);
    } else {
        assert(levels.take(k) =~= levels);
    }
}

/// The depth ladder of the levels `levels` (price and size), in the order
/// given: each level's price, its size, and the total size up to and
/// including it.  `None` when a total overflows.
pub fn depth_ladder(levels: &Vec<(Dec, Dec)>) -> (r: Option<Vec<(Dec, Dec, Dec)>>)
    requires
        forall|q: int| 0 <= q < levels@.len() ==> (#[trigger] levels@[q]).1.wf(),
    ensures
        r is Some == cum_ok(levels@),
        r matches Some(v) ==> v@.len() == levels@.len() && forall|i: int|
            0 <= i < v@.len() ==> #[trigger] v@[i] == (
                levels@[i].0,
                levels@[i].1,
                cum_total(levels@.take(i + 1)),
            ),
{
    let ghost ls = levels@;
    let mut out: Vec<(Dec, Dec, Dec)> = Vec::new();
    let mut cum = Dec::zero();
    let mut k: usize = 0;
    while k < levels.len()
        invariant
            0 <= k <= ls.len(),
            ls == levels@,
            forall|q: int| 0 <= q < ls.len() ==> (#[trigger] ls[q]).1.wf(),
            cum == cum_total(ls.take(k as int)),
            cum_ok(ls.take(k as int)),
            cum.wf(),
            out@.len() == k,
            forall|i: int|
                0 <= i < k ==> #[trigger] out@[i] == (ls[i].0, ls[i].1, cum_total(ls.take(i + 1))),
        decreases ls.len() - k,
    {
        let (price, size) = levels[k];
        proof {
            assert(ls[k as int].1.wf());
            assert(ls.take(k as int + 1).drop_last() =~= ls.take(k as int));
            assert(ls.take(k as int + 1).last() == ls[k as int]);
        }
        cum = match dec_checked_add(cum, size) {
            Some(x) => x,
            None => {
                proof {
                    if cum_ok(ls) {
                        lemma_cum_ok_prefix(ls, k + 1);
                    }
                }
                return None;
            },
        };
        out.push((price, size, cum));
        k = k + 1;
    }
    proof {
        assert(ls.take(ls.len() as int) =~= ls);
    }
    Some(out)
}

/// The total of the last rung of a ladder (zero for an empty one).
pub open spec fn last_total(ladder: Seq<(Dec, Dec, Dec)>) -> Dec {
    if ladder.len() == 0 {
        Dec { mantissa: 0, scale: 0 }
    } else {
        ladder.last().2
    }
}

/// The total that a full depth bar stands for: the larger of the two
/// ladders' last totals, and at least one.
pub fn ladder_scale(asks: &Vec<(Dec, Dec, Dec)>, bids: &Vec<(Dec, Dec, Dec)>) -> (r: Dec)
    requires
        asks@.len() > 0 ==> asks@.last().2.wf(),
        bids@.len() > 0 ==> bids@.last().2.wf(),
    ensures
        r == dec_max(dec_max(last_total(asks@), last_total(bids@)), Dec { mantissa: 1, scale: 0 }),
{
    let a = if asks.len() == 0 {
        Dec::zero()
    } else {
        asks[asks.len() - 1].2
    };
    let b = if bids.len() == 0 {
        Dec::zero()
    } else {
        bids[bids.len() - 1].2
    };
    let m = if a.le(&b) {
        b
    } else {
        a
    };
    let one = Dec::one();
    if m.le(&one) {
        one
    } else {
        m
    }
}

/// The number of rungs of a ladder of `len` levels shown in a panel of
/// `height` rows: two rows go to the borders, the rest is shared by asks
/// and bids with one row for the spread, and at most all but two rows.
pub open spec fn ladder_rows_of(len: int, height: int) -> int {
    let avail = if height >= 2 {
        height - 2
    } else {
        0
    };
    let half = avail / 2;
    let a = if len <= (if half >= 1 {
        half - 1
    } else {
        0
    }) {
        len
    } else if half >= 1 {
        half - 1
    } else {
        0
    };
    let cap = if avail >= 2 {
        avail - 2
    } else {
        0
    };
    if a <= cap {
        a
    } else {
        cap
    }
}

/// The number of rungs of a ladder of `len` levels shown in a panel of
/// `height` rows (`ladder_rows_of`).
pub fn ladder_rows(len: usize, height: u16) -> (r: usize)
    ensures
        r == ladder_rows_of(len as int, height as int),
{
    let avail = height.saturating_sub(2) as usize;
    let half = avail / 2;
    let a = if len <= half.saturating_sub(1) {
        len
    } else {
        half.saturating_sub(1)
    };
    let cap = avail.saturating_sub(2);
    if a <= cap {
        a
    } else {
        cap
    }
}

/// The best bid, the best ask and the spread between them (ask minus bid)
/// of `book`, when both sides have a level and the difference does not
/// overflow.
pub fn spread(book: &OrderBook) -> (r: Option<(Dec, Dec, Dec)>)
    requires
        book.wf(),
    ensures
        r is Some == (book.bid_levels().len() > 0 && book.ask_levels().len() > 0 && sub_ok(
            book.ask_levels()[0].0,
            book.bid_levels().last().0,
        )),
        r matches Some(x) ==> x == (
            book.bid_levels().last().0,
            book.ask_levels()[0].0,
            ddiff(book.ask_levels()[0].0, book.bid_levels().last().0),
        ),
{
    let bid = match book.best_bid() {
        Some(b) => b,
        None => return None,
    };
    let ask = match book.best_ask() {
        Some(a) => a,
        None => return None,
    };
    proof {
        assert(book.bid_levels().last().0.wf());
        assert(book.ask_levels()[0].0.wf());
    }
    match dec_checked_sub(ask, bid) {
        Some(d) => Some((bid, ask, d)),
        None => None,
    }
}

/// The total unrealized PnL of `ps`, added up in order from zero.
pub open spec fn pnl_total(ps: Seq<Position>) -> Dec
    decreases ps.len(),
{
    if ps.len() == 0 {
        Dec { mantissa: 0, scale: 0 }
    } else {
        dsum(pnl_total(ps.drop_last()), ps.last().unrealized_pnl)
    }
}

/// `pnl_total` does not overflow.
pub open spec fn pnl_total_ok(ps: Seq<Position>) -> bool
    decreases ps.len(),
{
    if ps.len() == 0 {
        true
    } else {
        pnl_total_ok(ps.drop_last()) && add_ok(pnl_total(ps.drop_last()), ps.last().unrealized_pnl)
    }
}

/// A total that overflows for a prefix overflows for the whole.
proof fn lemma_pnl_total_ok_prefix(ps: Seq<Position>, k: int)
    requires
        0 <= k <= ps.len(),
        pnl_total_ok(ps),
    ensures
        pnl_total_ok(ps.take(k)),
    decreases ps.len(),
{
    if k < ps.len() {
        assert(ps.drop_last().take(k) =~= ps.take(k));
        lemma_pnl_total_ok_prefix(ps.drop_last(), k);
    } else {
        assert(ps.take(k) =~= ps);
    }
}

/// What the account screen adds to the balances: the margin in use (the
/// balance less the available balance) and the total unrealized PnL of the
/// open positions.  `None` exactly when one of the two overflows.
pub fn account_totals(u: &UserAccount) -> (r: Option<(Dec, Dec)>)
    requires
        u.wf(),
    ensures
        r is Some == (sub_ok(u.balance, u.available_balance) && pnl_total_ok(u.positions@)),
        r matches Some(t) ==> t.0 == ddiff(u.balance, u.available_balance) && t.1 == pnl_total(
            u.positions@,
        ),
{
    let ghost ps = u.positions@;
    let mut total = Dec::zero();
    let mut k: usize = 0;
    while k < u.positions.len()
        invariant
            0 <= k <= ps.len(),
            ps == u.positions@,
            u.wf(),
            total == pnl_total(ps.take(k as int)),
            pnl_total_ok(ps.take(k as int)),
            total.wf(),
        decreases ps.len() - k,
    {
        let pnl = u.positions[k].unrealized_pnl;
        proof {
            assert(ps[k as int].wf());
            assert(ps.take(k as int + 1).drop_last() =~= ps.take(k as int));
            assert(ps.take(k as int + 1).last() == ps[k as int]);
        }
        total = match dec_checked_add(total, pnl) {
            Some(x) => x,
            None => {
                proof {
                    if pnl_total_ok(ps) {
                        lemma_pnl_total_ok_prefix(ps, k + 1);
                    }
                }
                return None;
            },
        };
        k = k + 1;
    }
    proof {
        assert(ps.take(ps.len() as int) =~= ps);
    }
    match dec_checked_sub(u.balance, u.available_balance) {
        Some(margin) => Some((margin, total)),
        None => None,
    }
}

} // verus!
