//! Candlestick charts of a market's price.
use vstd::prelude::*;
use crate::clock::now_secs;
use crate::decimal::{
    Dec, add_ok, ddiff, div_ok, dprod, dquot, dsum, mul_ok, sub_ok, dec_checked_add, dec_checked_div,
    dec_checked_mul, dec_checked_sub,
};

verus! {

/// The width of one chart bucket.
#[derive(Clone, Copy, Debug, PartialEq, Eq, Structural)]
pub enum Timeframe {
    M1,
    M5,
    M15,
    M60,
    H4,
    D1,
}

impl Timeframe {
    /// Length of one bucket of this timeframe, in seconds.
    pub open spec fn spec_seconds(self) -> int {
        match self {
            Timeframe::M1 => 60,
            Timeframe::M5 => 300,
            Timeframe::M15 => 900,
            Timeframe::M60 => 3600,
            Timeframe::H4 => 14400,
            Timeframe::D1 => 86400,
        }
    }

    pub fn seconds(&self) -> (r: i64)
        ensures
            r == self.spec_seconds(),
    {
        match self {
            Timeframe::M1 => 60,
            Timeframe::M5 => 300,
            Timeframe::M15 => 900,
            Timeframe::M60 => 3600,
            Timeframe::H4 => 14400,
            Timeframe::D1 => 86400,
        }
    }

    /// Short name of the timeframe.
    pub fn label(&self) -> (r: &'static str)
        ensures
            r@ == self.label_text(),
    {
        match self {
            Timeframe::M1 => "1m",
            Timeframe::M5 => "5m",
            Timeframe::M15 => "15m",
            Timeframe::M60 => "1h",
            Timeframe::H4 => "4h",
            Timeframe::D1 => "1D",
        }
    }

    /// Short name of the timeframe.
    pub open spec fn label_text(self) -> Seq<char> {
        match self {
            Timeframe::M1 => "1m"@,
            Timeframe::M5 => "5m"@,
            Timeframe::M15 => "15m"@,
            Timeframe::M60 => "1h"@,
            Timeframe::H4 => "4h"@,
            Timeframe::D1 => "1D"@,
        }
    }

    /// The next longer timeframe, wrapping from a day back to a minute.
    pub open spec fn spec_next(self) -> Timeframe {
        match self {
            Timeframe::M1 => Timeframe::M5,
            Timeframe::M5 => Timeframe::M15,
            Timeframe::M15 => Timeframe::M60,
            Timeframe::M60 => Timeframe::H4,
            Timeframe::H4 => Timeframe::D1,
            Timeframe::D1 => Timeframe::M1,
        }
    }

    /// The next longer timeframe, wrapping from a day back to a minute.
    pub fn next(&self) -> (r: Timeframe)
        ensures
            r == self.spec_next(),
    {
        match self {
            Timeframe::M1 => Timeframe::M5,
            Timeframe::M5 => Timeframe::M15,
            Timeframe::M15 => Timeframe::M60,
            Timeframe::M60 => Timeframe::H4,
            Timeframe::H4 => Timeframe::D1,
            Timeframe::D1 => Timeframe::M1,
        }
    }
}

/// One candle: open, high, low and close prices, traded volume, and its start
/// time in seconds since the Unix epoch.
#[derive(Clone, Copy, Debug)]
pub struct Candle {
    pub open: Dec,
    pub high: Dec,
    pub low: Dec,
    pub close: Dec,
    pub volume: Dec,
    pub timestamp: i64,
}

impl Candle {
    /// Its amounts are valid decimals.
    pub open spec fn wf(self) -> bool {
        &&& self.open.wf()
        &&& self.high.wf()
        &&& self.low.wf()
        &&& self.close.wf()
        &&& self.volume.wf()
    }

    /// A candle opened at `price` at time `timestamp`, with no volume yet.
    pub fn new(price: Dec, timestamp: i64) -> (r: Candle)
        requires
            price.wf(),
        ensures
            r.wf(),
            r == (Candle {
                open: price,
                high: price,
                low: price,
                close: price,
                volume: Dec { mantissa: 0, scale: 0 },
                timestamp: timestamp,
            }),
    {
        Candle { open: price, high: price, low: price, close: price, volume: Dec::zero(), timestamp }
    }

    /// The candle after a trade at `price` of `volume`: a new high or low is
    /// taken when the price goes beyond them, the price becomes the close,
    /// and the volume is added.
    pub open spec fn updated(self, price: Dec, volume: Dec) -> Candle {
        Candle {
            open: self.open,
            high: if price.val() > self.high.val() {
                price
            } else {
                self.high
            },
            low: if price.val() < self.low.val() {
                price
            } else {
                self.low
            },
            close: price,
            volume: dsum(self.volume, volume),
            timestamp: self.timestamp,
        }
    }

    /// Records a trade at `price` of `volume`.
    pub fn update(&mut self, price: Dec, volume: Dec)
        requires
            old(self).wf(),
            price.wf(),
            volume.wf(),
            add_ok(old(self).volume, volume),
        ensures
            final(self).wf(),
            *final(self) == old(self).updated(price, volume),
    {
        if self.high.lt(&price) {
            self.high = price;
        }
        if price.lt(&self.low) {
            self.low = price;
        }
        self.close = price;
        self.volume = self.volume.plus(volume);
    }

    /// The close is at least the open.
    pub fn is_up(&self) -> (r: bool)
        requires
            self.wf(),
        ensures
            r == (self.close.val() >= self.open.val()),
    {
        self.open.le(&self.close)
    }

    /// Distance between open and close.
    pub fn body_size(&self) -> (r: Dec)
        requires
            self.wf(),
            sub_ok(self.close, self.open),
            sub_ok(self.open, self.close),
        ensures
            r == (if self.close.val() >= self.open.val() {
                ddiff(self.close, self.open)
            } else {
                ddiff(self.open, self.close)
            }),
    {
        if self.open.le(&self.close) {
            self.close.minus(self.open)
        } else {
            self.open.minus(self.close)
        }
    }

    /// High minus the top of the body.
    pub fn wick_high(&self) -> (r: Dec)
        requires
            self.wf(),
            sub_ok(self.high, self.close),
            sub_ok(self.high, self.open),
        ensures
            r == ddiff(
                self.high,
                if self.close.val() >= self.open.val() {
                    self.close
                } else {
                    self.open
                },
            ),
    {
        let top = if self.open.le(&self.close) {
            self.close
        } else {
            self.open
        };
        self.high.minus(top)
    }

    /// The bottom of the body minus low.
    pub fn wick_low(&self) -> (r: Dec)
        requires
            self.wf(),
            sub_ok(self.open, self.low),
            sub_ok(self.close, self.low),
        ensures
            r == ddiff(
                if self.close.val() >= self.open.val() {
                    self.open
                } else {
                    self.close
                },
                self.low,
            ),
    {
        let bottom = if self.open.le(&self.close) {
            self.open
        } else {
            self.close
        };
        bottom.minus(self.low)
    }
}

/// `a % b` for `i64` as Rust computes it (the sign follows `a`).
pub open spec fn trunc_rem(a: int, b: int) -> int {
    if a >= 0 {
        a % b
    } else {
        -((-a) % b)
    }
}

/// Whether chrono can build a date-time from `secs`: the seconds fall
/// between the start of January 1 of the year -262143 and the end of
/// December 31 of the year 262142, chrono's first and last dates.
pub open spec fn chrono_timestamp_ok(secs: i64) -> bool {
    -8_334_601_228_800 <= secs <= 8_210_266_876_799
}

/// `DateTime::from_timestamp(secs, 0).is_some()`.
/// Claims: it is, exactly for the seconds that fall within chrono's range of
/// dates (its day number, from January 1 of the year 1, lies between that of
/// `NaiveDate::MIN` and that of `NaiveDate::MAX`).
#[verifier::external_body]
pub(crate) fn timestamp_representable(secs: i64) -> (r: bool)
    ensures
        r == chrono_timestamp_ok(secs),
{
    chrono::DateTime::from_timestamp(secs, 0).is_some()
}

/// Start of the bucket of `tf` holding the time `secs`: `secs` less its
/// remainder by the bucket length, or `secs` itself when chrono cannot
/// represent that start.
pub open spec fn bucket_start(secs: i64, tf: Timeframe) -> i64 {
    let floored = secs - trunc_rem(secs as int, tf.spec_seconds());
    if chrono_timestamp_ok(floored as i64) {
        floored as i64
    } else {
        secs
    }
}

/// The bucket start of `secs` for `tf`.
fn floor_timestamp(secs: i64, tf: Timeframe) -> (r: i64)
    ensures
        r == bucket_start(secs, tf),
{
    let b = tf.seconds();
    let rem: i64 = if secs >= 0 {
        secs % b
    } else {
        let x = (-(secs + 1)) % b;
        let m = (x + 1) % b;
        proof {
            lemma_neg_rem(secs as int, b as int);
        }
        -m
    };
    let floored = secs - rem;
    if timestamp_representable(floored) {
        floored
    } else {
        secs
    }
}

/// `(-a) % b` computed without negating `a` itself.
proof fn lemma_neg_rem(a: int, b: int)
    requires
        a < 0,
        b > 0,
    ensures
        ((-(a + 1)) % b + 1) % b == (-a) % b,
{
    let n = -(a + 1);
    assert(((n % b) + 1) % b == (n + 1) % b) by (nonlinear_arith)
        requires
            n >= 0,
            b > 0,
    ;
}

/// The candle's low is at most its open and close, and its high at least.
pub open spec fn ordered(c: Candle) -> bool {
    &&& c.low.val() <= c.open.val() <= c.high.val()
    &&& c.low.val() <= c.close.val() <= c.high.val()
}

/// A candle opened at a price is ordered, and a trade keeps it ordered: the
/// high and low always bracket the open and close.
pub proof fn law_candle_stays_ordered(c: Candle, price: Dec, volume: Dec)
    ensures
        ordered(
            Candle {
                open: price,
                high: price,
                low: price,
                close: price,
                volume: Dec { mantissa: 0, scale: 0 },
                timestamp: c.timestamp,
            },
        ),
        ordered(c) ==> ordered(c.updated(price, volume)),
{
}

/// The candles of one market at one timeframe: finished candles, oldest
/// first and at most `max_candles` of them, and the candle in progress.
pub struct CandleChart {
    pub timeframe: Timeframe,
    candles: Vec<Candle>,
    current: Option<Candle>,
    max_candles: usize,
}

/// `s` with `c` added at the back, the front dropped when that makes more
/// than `max` candles.
pub open spec fn push_bounded(s: Seq<Candle>, c: Candle, max: nat) -> Seq<Candle> {
    if s.len() + 1 > max {
        s.push(c).drop_first()
    } else {
        s.push(c)
    }
}

impl CandleChart {
    /// The timeframe.
    pub closed spec fn frame(self) -> Timeframe {
        self.timeframe
    }

    /// The finished candles, oldest first.
    pub closed spec fn finished(self) -> Seq<Candle> {
        self.candles@
    }

    /// The candle in progress.
    pub closed spec fn in_progress(self) -> Option<Candle> {
        self.current
    }

    /// The most finished candles kept.
    pub closed spec fn capacity(self) -> nat {
        self.max_candles as nat
    }

    /// Valid candles.
    pub open spec fn wf(self) -> bool {
        &&& self.finished().len() <= self.capacity()
        &&& forall|i: int| 0 <= i < self.finished().len() ==> (#[trigger] self.finished()[i]).wf()
        &&& (self.in_progress() matches Some(c) ==> c.wf())
    }

    /// An empty 15-minute chart keeping at most `max_candles` finished candles.
    pub fn new(max_candles: usize) -> (r: CandleChart)
        ensures
            r.wf(),
            r.frame() == Timeframe::M15,
            r.finished() == Seq::<Candle>::empty(),
            r.in_progress() == None::<Candle>,
            r.capacity() == max_candles,
    {
        CandleChart { timeframe: Timeframe::M15, candles: Vec::new(), current: None, max_candles }
    }

    /// Adds a finished candle at the back, dropping the oldest when there are
    /// then more than the capacity.
    pub fn push_historical(&mut self, candle: Candle)
        requires
            old(self).wf(),
            candle.wf(),
        ensures
            final(self).wf(),
            final(self).finished() == push_bounded(
                old(self).finished(),
                candle,
                old(self).capacity(),
            ),
            final(self).in_progress() == old(self).in_progress(),
            final(self).capacity() == old(self).capacity(),
            final(self).frame() == old(self).frame(),
    {
        let ghost before = self.candles@;
        self.candles.push(candle);
        if self.candles.len() > self.max_candles {
            self.candles.remove(0);
            proof {
                assert forall|i: int| 0 <= i < self.candles@.len() implies (
                #[trigger] self.candles@[i]).wf() by {
                    assert(self.candles@[i] == before.push(candle)[i + 1]);
                    if i + 1 < before.len() {
                        assert(old(self).finished()[i + 1].wf());
                    }
                }
            }
        } else {
            proof {
                assert forall|i: int| 0 <= i < self.candles@.len() implies (
                #[trigger] self.candles@[i]).wf() by {
                    assert(self.candles@[i] == before.push(candle)[i]);
                    if i < before.len() {
                        assert(old(self).finished()[i].wf());
                    }
                }
            }
        }
    }

    /// Records a trade at `price` of `volume` at time `now`: the first trade
    /// opens a candle; a trade in the bucket of the candle in progress
    /// updates it; a trade in another bucket finishes that candle (its volume
    /// is not counted) and opens a new one.
    pub fn tick_at(&mut self, price: Dec, volume: Dec, now: i64)
        requires
            old(self).wf(),
            price.wf(),
            volume.wf(),
            tick_ok(*old(self), volume, now),
        ensures
            final(self).wf(),
            ticked(*old(self), *final(self), price, volume, now),
    {
        let bucket = floor_timestamp(now, self.timeframe);
        match self.current {
            Some(cur) => {
                let current_bucket = floor_timestamp(cur.timestamp, self.timeframe);
                if bucket != current_bucket {
                    self.current = Some(Candle::new(price, now));
                    proof {
                        assert forall|i: int| 0 <= i < self.finished().len() implies (
                        #[trigger] self.finished()[i]).wf() by {
                            assert(old(self).finished()[i].wf());
                        }
                    }
                    self.push_historical(cur);
                } else {
                    let mut c = cur;
                    c.update(price, volume);
                    self.current = Some(c);
                    proof {
                        assert forall|i: int| 0 <= i < self.finished().len() implies (
                        #[trigger] self.finished()[i]).wf() by {
                            assert(old(self).finished()[i].wf());
                        }
                    }
                }
            },
            None => {
                self.current = Some(Candle::new(price, now));
                proof {
                    assert forall|i: int| 0 <= i < self.finished().len() implies (
                    #[trigger] self.finished()[i]).wf() by {
                        assert(old(self).finished()[i].wf());
                    }
                }
            },
        }
    }

    /// Records a trade at `price` of `volume` at the current time.  The
    /// clock is read here, so whether the trade falls in the bucket of the
    /// candle in progress is not known to the caller: the volume must add up
    /// whatever time is read.  `tick_at` asks that only for the bucket of the
    /// time it is given, and `try_tick` asks nothing.
    pub fn tick(&mut self, price: Dec, volume: Dec)
        requires
            old(self).wf(),
            price.wf(),
            volume.wf(),
            old(self).in_progress() matches Some(c) ==> add_ok(c.volume, volume),
        ensures
            final(self).wf(),
            exists|now: i64| ticked(*old(self), *final(self), price, volume, now),
    {
        let now = now_secs();
        self.tick_at(price, volume, now);
    }

    /// The chart's timeframe.
    pub fn timeframe(&self) -> (r: Timeframe)
        ensures
            r == self.frame(),
    {
        self.timeframe
    }

    /// Whether `tick_at(_, volume, now)` completes without overflow
    /// (`tick_ok`).
    pub fn tick_checks(&self, volume: Dec, now: i64) -> (r: bool)
        requires
            self.wf(),
            volume.wf(),
        ensures
            r == tick_ok(*self, volume, now),
    {
        match self.current {
            Some(cur) => {
                if floor_timestamp(now, self.timeframe) == floor_timestamp(cur.timestamp, self.timeframe) {
                    dec_checked_add(cur.volume, volume).is_some()
                } else {
                    true
                }
            },
            None => true,
        }
    }

    /// `tick` where the volume of the candle in progress may overflow:
    /// returns whether it did not; the chart is unchanged when it would have.
    pub fn try_tick(&mut self, price: Dec, volume: Dec) -> (r: bool)
        requires
            old(self).wf(),
            price.wf(),
            volume.wf(),
        ensures
            final(self).wf(),
            r ==> exists|now: i64| ticked(*old(self), *final(self), price, volume, now),
            !r ==> *final(self) == *old(self) && exists|now: i64| !tick_ok(*old(self), volume, now),
    {
        let now = now_secs();
        if self.tick_checks(volume, now) {
            self.tick_at(price, volume, now);
            true
        } else {
            false
        }
    }

    /// The finished candles, oldest first, then the candle in progress.
    pub fn candles(&self) -> (r: Vec<Candle>)
        ensures
            r@ == all_candles(*self),
    {
        let mut r: Vec<Candle> = Vec::new();
        let mut i: usize = 0;
        while i < self.candles.len()
            invariant
                0 <= i <= self.candles@.len(),
                r@ =~= self.candles@.take(i as int),
            decreases self.candles@.len() - i,
        {
            r.push(self.candles[i]);
            i = i + 1;
        }
        proof {
            assert(self.candles@.take(self.candles@.len() as int) =~= self.candles@);
        }
        match self.current {
            Some(c) => {
                r.push(c);
            },
            None => {},
        }
        r
    }

    /// Switches to timeframe `tf`, dropping all candles, unless it is already
    /// the timeframe.
    pub fn set_timeframe(&mut self, tf: Timeframe)
        requires
            old(self).wf(),
        ensures
            final(self).wf(),
            reframed(*old(self), *final(self), tf),
    {
        if self.timeframe != tf {
            self.timeframe = tf;
            self.candles.clear();
            self.current = None;
        }
    }

    /// The closes of `candles()`, in order.
    fn closes(&self) -> (r: Vec<Dec>)
        requires
            self.wf(),
        ensures
            r@ == closes_of(all_candles(*self)),
            forall|k: int| 0 <= k < r@.len() ==> (#[trigger] r@[k]).wf(),
    {
        let candles = self.candles();
        let mut closes: Vec<Dec> = Vec::new();
        let mut i: usize = 0;
        while i < candles.len()
            invariant
                0 <= i <= candles@.len(),
                closes@ =~= closes_of(candles@).take(i as int),
            decreases candles@.len() - i,
        {
            closes.push(candles[i].close);
            i = i + 1;
        }
        proof {
            assert(closes_of(candles@).take(candles@.len() as int) =~= closes_of(candles@));
            assert forall|k: int| 0 <= k < closes@.len() implies (#[trigger] closes@[k]).wf() by {
                assert(closes@[k] == all_candles(*self)[k].close);
                if k < self.finished().len() {
                    assert(all_candles(*self)[k] == self.finished()[k]);
                }
            }
        }
        closes
    }

    /// The exponential moving average of the closes of `candles()` over
    /// `period` (`ema_of`), with weight `multiplier` for each new close; empty
    /// when there are fewer candles than `period`.
    pub fn compute_ema(&self, period: usize, multiplier: Dec) -> (r: Vec<Dec>)
        requires
            self.wf(),
            period >= 1,
            multiplier.wf(),
            all_candles(*self).len() >= period ==> ema_ok(closes_of(all_candles(*self)), period as nat, multiplier),
        ensures
            all_candles(*self).len() < period ==> r@.len() == 0,
            all_candles(*self).len() >= period ==> r@ == ema_of(closes_of(all_candles(*self)), period as nat, multiplier),
    {
        let closes = self.closes();
        compute_ema(&closes, period, multiplier)
    }

    /// `compute_ema` where the arithmetic may overflow: `None` exactly when
    /// it would.
    pub fn try_compute_ema(&self, period: usize, multiplier: Dec) -> (r: Option<Vec<Dec>>)
        requires
            self.wf(),
            period >= 1,
            multiplier.wf(),
        ensures
            r is None <==> all_candles(*self).len() >= period && !ema_ok(
                closes_of(all_candles(*self)),
                period as nat,
                multiplier,
            ),
            r matches Some(v) ==> (all_candles(*self).len() < period ==> v@.len() == 0) && (all_candles(
                *self,
            ).len() >= period ==> v@ == ema_of(closes_of(all_candles(*self)), period as nat, multiplier)),
    {
        let closes = self.closes();
        try_compute_ema(&closes, period, multiplier)
    }
}

/// The finished candles, then the one in progress.
pub open spec fn all_candles(chart: CandleChart) -> Seq<Candle> {
    match chart.in_progress() {
        Some(c) => chart.finished().push(c),
        None => chart.finished(),
    }
}

/// The closes of the candles.
pub open spec fn closes_of(cs: Seq<Candle>) -> Seq<Dec> {
    Seq::new(cs.len(), |i: int| cs[i].close)
}

/// `after` is chart `before` switched to timeframe `tf`: the same capacity;
/// its candles kept when `tf` is its timeframe already, dropped otherwise.
pub open spec fn reframed(before: CandleChart, after: CandleChart, tf: Timeframe) -> bool {
    &&& after.frame() == tf
    &&& after.capacity() == before.capacity()
    &&& tf == before.frame() ==> after.finished() == before.finished() && after.in_progress()
        == before.in_progress()
    &&& tf != before.frame() ==> after.finished() == Seq::<Candle>::empty() && after.in_progress()
        == None::<Candle>
}

/// The arithmetic of a tick at `now` stays in range.
pub open spec fn tick_ok(chart: CandleChart, volume: Dec, now: i64) -> bool {
    match chart.in_progress() {
        Some(c) => bucket_start(now, chart.frame()) == bucket_start(c.timestamp, chart.frame())
            ==> add_ok(c.volume, volume),
        None => true,
    }
}

/// `after` is `before` after a trade at `price` of `volume` at time `now`.
pub open spec fn ticked(before: CandleChart, after: CandleChart, price: Dec, volume: Dec, now: i64) -> bool {
    let fresh = Candle {
        open: price,
        high: price,
        low: price,
        close: price,
        volume: Dec { mantissa: 0, scale: 0 },
        timestamp: now,
    };
    &&& after.frame() == before.frame()
    &&& after.capacity() == before.capacity()
    &&& match before.in_progress() {
        None => after.finished() == before.finished() && after.in_progress() == Some(fresh),
        Some(c) => if bucket_start(now, before.frame()) != bucket_start(c.timestamp, before.frame()) {
            &&& after.finished() == push_bounded(before.finished(), c, before.capacity())
            &&& after.in_progress() == Some(fresh)
        } else {
            &&& after.finished() == before.finished()
            &&& after.in_progress() == Some(c.updated(price, volume))
        },
    }
}

/// The sum of `s`, added up from the first, starting from zero.
pub open spec fn dec_sum_of(s: Seq<Dec>) -> Dec
    decreases s.len(),
{
    if s.len() == 0 {
        Dec { mantissa: 0, scale: 0 }
    } else {
        dsum(dec_sum_of(s.drop_last()), s.last())
    }
}

/// No addition in `dec_sum_of(s)` overflows.
pub open spec fn dec_sum_ok(s: Seq<Dec>) -> bool
    decreases s.len(),
{
    if s.len() == 0 {
        true
    } else {
        dec_sum_ok(s.drop_last()) && add_ok(dec_sum_of(s.drop_last()), s.last())
    }
}

/// One step of the average: `(close - prev) * multiplier + prev`.
pub open spec fn ema_step(close: Dec, prev: Dec, multiplier: Dec) -> Dec {
    dsum(dprod(ddiff(close, prev), multiplier), prev)
}

/// `ema_step` does not overflow.
pub open spec fn ema_step_ok(close: Dec, prev: Dec, multiplier: Dec) -> bool {
    &&& sub_ok(close, prev)
    &&& mul_ok(ddiff(close, prev), multiplier)
    &&& add_ok(dprod(ddiff(close, prev), multiplier), prev)
}

/// The averages after `prev` for the closes `s`, in turn.
pub open spec fn ema_tail(s: Seq<Dec>, prev: Dec, multiplier: Dec) -> Seq<Dec>
    decreases s.len(),
{
    if s.len() == 0 {
        seq![]
    } else {
        let v = ema_step(s[0], prev, multiplier);
        seq![v] + ema_tail(s.drop_first(), v, multiplier)
    }
}

/// No step of `ema_tail` overflows.
pub open spec fn ema_tail_ok(s: Seq<Dec>, prev: Dec, multiplier: Dec) -> bool
    decreases s.len(),
{
    if s.len() == 0 {
        true
    } else {
        ema_step_ok(s[0], prev, multiplier) && ema_tail_ok(
            s.drop_first(),
            ema_step(s[0], prev, multiplier),
            multiplier,
        )
    }
}

/// The simple average of the first `period` closes.
pub open spec fn sma_of(closes: Seq<Dec>, period: nat) -> Dec {
    dquot(dec_sum_of(closes.take(period as int)), Dec { mantissa: period as i128, scale: 0 })
}

/// The exponential moving average: zeros for the first `period - 1`
/// positions, the simple average of the first `period` closes at position
/// `period - 1`, then one step of the average per further close.
pub open spec fn ema_of(closes: Seq<Dec>, period: nat, multiplier: Dec) -> Seq<Dec> {
    Seq::new((period - 1) as nat, |i: int| Dec { mantissa: 0, scale: 0 }) + seq![sma_of(closes, period)]
        + ema_tail(closes.skip(period as int), sma_of(closes, period), multiplier)
}

/// The arithmetic of `ema_of` stays in range.
pub open spec fn ema_ok(closes: Seq<Dec>, period: nat, multiplier: Dec) -> bool {
    &&& dec_sum_ok(closes.take(period as int))
    &&& div_ok(dec_sum_of(closes.take(period as int)), Dec { mantissa: period as i128, scale: 0 })
    &&& ema_tail_ok(closes.skip(period as int), sma_of(closes, period), multiplier)
}

/// The exponential moving average of `closes` over `period` (`ema_of`), with
/// weight `multiplier` for each new close (the customary weight is
/// `2 / (period + 1)`); empty when there are fewer closes than `period`.
pub fn compute_ema(closes: &Vec<Dec>, period: usize, multiplier: Dec) -> (r: Vec<Dec>)
    requires
        period >= 1,
        multiplier.wf(),
        forall|k: int| 0 <= k < closes.len() ==> (#[trigger] closes@[k]).wf(),
        closes.len() >= period ==> ema_ok(closes@, period as nat, multiplier),
    ensures
        closes.len() < period ==> r@.len() == 0,
        closes.len() >= period ==> r@ == ema_of(closes@, period as nat, multiplier),
{
    match try_compute_ema(closes, period, multiplier) {
        Some(ema) => ema,
        None => Vec::new(),
    }
}

/// `compute_ema` where the arithmetic may overflow: `None` exactly when it
/// would (`compute_ema` would panic there).
pub fn try_compute_ema(closes: &Vec<Dec>, period: usize, multiplier: Dec) -> (r: Option<Vec<Dec>>)
    requires
        period >= 1,
        multiplier.wf(),
        forall|k: int| 0 <= k < closes.len() ==> (#[trigger] closes@[k]).wf(),
    ensures
        r is None <==> closes.len() >= period && !ema_ok(closes@, period as nat, multiplier),
        r matches Some(v) ==> (closes.len() < period ==> v@.len() == 0) && (closes.len() >= period
            ==> v@ == ema_of(closes@, period as nat, multiplier)),
{
    if closes.len() < period {
        return Some(Vec::new());
    }
    let ghost cs = closes@;
    let mut sum = Dec::zero();
    let mut k: usize = 0;
    while k < period
        invariant
            0 <= k <= period <= closes.len(),
            cs == closes@,
            forall|q: int| 0 <= q < closes.len() ==> (#[trigger] closes@[q]).wf(),
            dec_sum_ok(cs.take(k as int)),
            sum == dec_sum_of(cs.take(k as int)),
            sum.wf(),
        decreases period - k,
    {
        proof {
            assert(cs.take(k + 1).drop_last() =~= cs.take(k as int));
            assert(cs.take(k + 1).last() == cs[k as int]);
            assert(cs.take(period as int).take(k + 1) =~= cs.take(k + 1));
        }
        sum = match dec_checked_add(sum, closes[k]) {
            Some(x) => x,
            None => {
                proof {
                    if dec_sum_ok(cs.take(period as int)) {
                        lemma_sum_ok_prefix(cs.take(period as int), k + 1);
                    }
                }
                return None;
            },
        };
        k = k + 1;
    }
    let sma = match dec_checked_div(sum, Dec { mantissa: period as i128, scale: 0 }) {
        Some(x) => x,
        None => return None,
    };
    let mut ema: Vec<Dec> = Vec::new();
    let mut z: usize = 0;
    while z + 1 < period
        invariant
            0 <= z < period,
            ema@ =~= Seq::new(z as nat, |i: int| Dec { mantissa: 0, scale: 0 }),
        decreases period - z,
    {
        ema.push(Dec::zero());
        z = z + 1;
    }
    ema.push(sma);
    let ghost head = ema@;
    proof {
        assert(head =~= Seq::new((period - 1) as nat, |i: int| Dec { mantissa: 0, scale: 0 }) + seq![sma]);
    }
    let mut prev = sma;
    let mut j: usize = period;
    while j < closes.len()
        invariant
            period <= j <= closes.len(),
            cs == closes@,
            forall|q: int| 0 <= q < closes.len() ==> (#[trigger] closes@[q]).wf(),
            multiplier.wf(),
            prev.wf(),
            sma == sma_of(cs, period as nat),
            ema_tail_ok(cs.skip(period as int), sma, multiplier) == ema_tail_ok(
                cs.skip(j as int),
                prev,
                multiplier,
            ),
            ema@ + ema_tail(cs.skip(j as int), prev, multiplier) == head + ema_tail(
                cs.skip(period as int),
                sma,
                multiplier,
            ),
        decreases closes.len() - j,
    {
        let ghost before = ema@;
        let ghost rest = cs.skip(j as int);
        let ghost prev_old = prev;
        proof {
            assert(rest[0] == cs[j as int]);
            assert(rest.drop_first() =~= cs.skip(j + 1));
        }
        let gap = match dec_checked_sub(closes[j], prev) {
            Some(x) => x,
            None => return None,
        };
        let step = match dec_checked_mul(gap, multiplier) {
            Some(x) => x,
            None => return None,
        };
        let val = match dec_checked_add(step, prev) {
            Some(x) => x,
            None => return None,
        };
        ema.push(val);
        prev = val;
        proof {
            assert(ema_tail(rest, prev_old, multiplier) == seq![val] + ema_tail(
                cs.skip(j + 1),
                val,
                multiplier,
            ));
            assert(ema@ + ema_tail(cs.skip(j + 1), val, multiplier) =~= before + ema_tail(
                rest,
                prev_old,
                multiplier,
            ));
        }
        j = j + 1;
    }
    proof {
        assert(cs.skip(closes.len() as int) =~= Seq::<Dec>::empty());
        assert(ema@ + seq![] =~= ema@);
    }
    Some(ema)
}

/// A prefix of a sum that can be computed can be computed too.
proof fn lemma_sum_ok_prefix(s: Seq<Dec>, n: int)
    requires
        dec_sum_ok(s),
        0 <= n <= s.len(),
    ensures
        dec_sum_ok(s.take(n)),
    decreases s.len(),
{
    if n < s.len() {
        assert(s.drop_last().take(n) =~= s.take(n));
        lemma_sum_ok_prefix(s.drop_last(), n);
    } else {
        assert(s.take(n) =~= s);
    }
}

} // verus!
