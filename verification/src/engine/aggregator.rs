//! Rolls trades and short candles into the candles of one interval.

use crate::domain::candle::{later, Candle};
use crate::domain::interval::Interval;
use crate::domain::number::{calculates, Calc, Double};
use vstd::prelude::*;
use vstd::string::*;

verus! {

/// One trade.
#[derive(Debug, Clone, Copy, PartialEq, Eq, Structural)]
pub struct TradeTick {
    pub timestamp_ms: i64,
    pub price: Double,
    pub quantity: Double,
}

impl TradeTick {
    /// The candle of the trade, with its quote volume.
    pub open spec fn as_candle(self, quote: Double) -> Candle {
        Candle::of_trade(self.timestamp_ms, self.price, self.quantity, quote)
    }

    /// `quote` is what `calc` makes of the price times the quantity.
    pub open spec fn quoted<F: Fn(Calc) -> Double>(self, calc: F, quote: Double) -> bool {
        call_ensures(calc, (Calc::Multiply(self.price, self.quantity),), quote)
    }

    pub fn new(timestamp_ms: i64, price: Double, quantity: Double) -> (r: Self)
        ensures
            r == (TradeTick { timestamp_ms, price, quantity }),
    {
        TradeTick { timestamp_ms, price, quantity }
    }
}

#[derive(Debug, Clone, Copy, PartialEq, Eq, Structural)]
pub enum AggregationError {
    /// The input belongs to a bucket before the open one.
    OutOfOrder,
}

impl AggregationError {
    pub fn message(&self) -> (r: String)
        ensures
            r@ == "out-of-order input for interval"@,
    {
        "out-of-order input for interval".to_owned()
    }
}

/// The open candle of one interval.
#[derive(Debug, Clone, Copy)]
pub struct Aggregator {
    interval: Interval,
    bucket_anchor_ms: Option<i64>,
    current: Option<Candle>,
}

impl Aggregator {
    pub closed spec fn span(self) -> Interval {
        self.interval
    }

    pub closed spec fn anchor(self) -> Option<i64> {
        self.bucket_anchor_ms
    }

    pub closed spec fn open_candle(self) -> Option<Candle> {
        self.current
    }

    /// The start of the bucket that an instant falls into.
    pub open spec fn bucket(self, timestamp_ms: int) -> int {
        match self.anchor() {
            Some(anchor_ms) => self.span().anchored_bucket(timestamp_ms, anchor_ms as int),
            None => self.span().bucket(timestamp_ms),
        }
    }

    pub open spec fn has_bucket(self, timestamp_ms: int) -> bool {
        match self.anchor() {
            Some(anchor_ms) => self.span().has_anchored_bucket(timestamp_ms, anchor_ms as int),
            None => self.span().has_bucket(timestamp_ms),
        }
    }

    /// The input as it stands in its bucket: it opens with the bucket and
    /// does not close before the bucket ends.
    pub open spec fn placed(self, input: Candle) -> Candle {
        let start = self.bucket(input.open_time as int);
        Candle {
            open_time: start as i64,
            close_time: later((start + self.span().millis() - 1) as i64, input.close_time),
            ..input
        }
    }

    /// The input's bucket and the counts fit into machine numbers.
    pub open spec fn takes(self, input: Candle) -> bool {
        &&& self.has_bucket(input.open_time as int)
        &&& self.bucket(input.open_time as int) + self.span().millis() <= i64::MAX
        &&& self.open_candle() matches Some(current) ==> current.open_time == self.bucket(
            input.open_time as int,
        ) ==> current.trade_count + input.trade_count <= u64::MAX
    }

    /// The trade's bucket and the counts fit, whatever its quote volume is.
    pub open spec fn takes_trade(self, tick: TradeTick) -> bool {
        forall|quote: Double| self.takes(#[trigger] tick.as_candle(quote))
    }

    /// Taking in `input` leads to `after` and gives back `r`: the open candle
    /// grows while the bucket stays the same, is closed and handed out when
    /// the bucket changes, and an input of an earlier bucket is refused.
    pub open spec fn advances<F: Fn(Calc) -> Double>(
        self,
        input: Candle,
        calc: F,
        r: Result<Option<Candle>, AggregationError>,
        after: Aggregator,
    ) -> bool {
        let placed = self.placed(input);
        &&& after.span() == self.span()
        &&& after.anchor() == self.anchor()
        &&& match self.open_candle() {
            None => r == Ok::<Option<Candle>, AggregationError>(None) && after.open_candle()
                == Some(placed),
            Some(current) => if placed.open_time < current.open_time {
                r == Err::<Option<Candle>, AggregationError>(AggregationError::OutOfOrder)
                    && after.open_candle() == self.open_candle()
            } else if placed.open_time == current.open_time {
                &&& r == Ok::<Option<Candle>, AggregationError>(None)
                &&& after.open_candle() matches Some(grown) && current.merged(placed, calc, grown)
            } else {
                r == Ok::<Option<Candle>, AggregationError>(Some(current.finalized()))
                    && after.open_candle() == Some(placed)
            },
        }
    }

    pub fn new(interval: Interval) -> (r: Self)
        ensures
            r.span() == interval,
            r.anchor() is None,
            r.open_candle() is None,
    {
        Aggregator { interval, bucket_anchor_ms: None, current: None }
    }

    pub fn interval(&self) -> (r: Interval)
        ensures
            r == self.span(),
    {
        self.interval
    }

    pub fn set_bucket_anchor_ms(&mut self, anchor_ms: i64)
        ensures
            final(self).span() == old(self).span(),
            final(self).anchor() == Some(anchor_ms),
            final(self).open_candle() == old(self).open_candle(),
    {
        self.bucket_anchor_ms = Some(anchor_ms);
    }

    pub fn bucket_start_ms(&self, timestamp_ms: i64) -> (r: i64)
        requires
            self.has_bucket(timestamp_ms as int),
        ensures
            r == self.bucket(timestamp_ms as int),
    {
        match self.bucket_anchor_ms {
            Some(anchor_ms) => self.interval.bucket_start_ms_with_anchor(timestamp_ms, anchor_ms),
            None => self.interval.bucket_start_ms(timestamp_ms),
        }
    }

    /// Whether the bucket of an instant can be computed.
    pub fn can_bucket(&self, timestamp_ms: i64) -> (r: bool)
        ensures
            r == self.has_bucket(timestamp_ms as int),
    {
        match self.bucket_anchor_ms {
            Some(anchor_ms) => self.interval.can_bucket_with_anchor(timestamp_ms, anchor_ms),
            None => self.interval.can_bucket(timestamp_ms),
        }
    }

    /// Whether the input's bucket and the counts fit into machine numbers.
    pub fn can_take(&self, input: &Candle) -> (r: bool)
        ensures
            r == self.takes(*input),
    {
        if !self.can_bucket(input.open_time) {
            return false;
        }
        let bucket_start: i64 = self.bucket_start_ms(input.open_time);
        let interval_ms: i64 = self.interval.as_millis() as i64;
        if bucket_start.checked_add(interval_ms).is_none() {
            return false;
        }
        match self.current {
            Some(current) => {
                current.open_time != bucket_start || current.trade_count.checked_add(
                    input.trade_count,
                ).is_some()
            },
            None => true,
        }
    }

    /// Whether the trade's bucket and the counts fit into machine numbers.
    pub fn can_take_trade(&self, tick: &TradeTick) -> (r: bool)
        ensures
            r == self.takes_trade(*tick),
    {
        let input = Candle {
            open_time: tick.timestamp_ms,
            close_time: tick.timestamp_ms,
            open: tick.price,
            high: tick.price,
            low: tick.price,
            close: tick.price,
            volume: tick.quantity,
            quote_volume: tick.price,
            trade_count: 1,
            is_closed: false,
        };
        assert(input == tick.as_candle(tick.price));
        self.can_take(&input)
    }

    pub fn reset(&mut self)
        ensures
            final(self).span() == old(self).span(),
            final(self).anchor() == old(self).anchor(),
            final(self).open_candle() is None,
    {
        self.current = None;
    }

    /// Takes in one trade, with `calc` for its quote volume and for sums.
    pub fn ingest_trade<F: Fn(Calc) -> Double>(&mut self, tick: TradeTick, calc: &F) -> (r: Result<
        Option<Candle>,
        AggregationError,
    >)
        requires
            calculates(*calc),
            old(self).takes_trade(tick),
        ensures
            exists|quote: Double| #[trigger]
                tick.quoted(*calc, quote) && old(self).advances(
                    tick.as_candle(quote),
                    *calc,
                    r,
                    *final(self),
                ),
    {
        let input = Candle::from_trade(tick.timestamp_ms, tick.price, tick.quantity, calc);
        assert(input == tick.as_candle(input.quote_volume));
        assert(tick.quoted(*calc, input.quote_volume));
        self.ingest_candle(input, calc)
    }

    /// Takes in one candle, with `calc` to add volumes.
    pub fn ingest_candle<F: Fn(Calc) -> Double>(&mut self, input: Candle, calc: &F) -> (r:
        Result<Option<Candle>, AggregationError>)
        requires
            calculates(*calc),
            old(self).takes(input),
        ensures
            old(self).advances(input, *calc, r, *final(self)),
    {
        let bucket_start: i64 = self.bucket_start_ms(input.open_time);
        let interval_ms: i64 = self.interval.as_millis() as i64;
        let bucket_end: i64 = bucket_start + interval_ms - 1;
        let placed = Candle {
            open_time: bucket_start,
            close_time: if bucket_end < input.close_time {
                input.close_time
            } else {
                bucket_end
            },
            ..input
        };
        match self.current {
            None => {
                self.current = Some(placed);
                Ok(None)
            },
            Some(mut current) => {
                if bucket_start < current.open_time {
                    return Err(AggregationError::OutOfOrder);
                }
                if bucket_start == current.open_time {
                    current.merge_from(&placed, calc);
                    self.current = Some(current);
                    Ok(None)
                } else {
                    let closed = current.finalize();
                    self.current = Some(placed);
                    Ok(Some(closed))
                }
            },
        }
    }

    /// Hands out the open candle, closed.
    pub fn flush(&mut self) -> (r: Option<Candle>)
        ensures
            final(self).span() == old(self).span(),
            final(self).anchor() == old(self).anchor(),
            final(self).open_candle() is None,
            match old(self).open_candle() {
                Some(current) => r == Some(current.finalized()),
                None => r is None,
            },
    {
        match self.current {
            Some(current) => {
                self.current = None;
                Some(current.finalize())
            },
            None => None,
        }
    }

    pub fn current(&self) -> (r: Option<Candle>)
        ensures
            r == self.open_candle(),
    {
        self.current
    }
}

/// Where a bucket can be computed its start is a 64-bit number.
pub proof fn bucket_is_a_time(aggregator: Aggregator, timestamp_ms: i64)
    requires
        aggregator.has_bucket(timestamp_ms as int),
    ensures
        i64::MIN <= aggregator.bucket(timestamp_ms as int) <= i64::MAX,
{
    match aggregator.anchor() {
        Some(anchor_ms) => {
            crate::domain::interval::anchored_buckets_keep_the_phase(
                aggregator.span(),
                timestamp_ms as int,
                anchor_ms as int,
            );
        },
        None => {
            crate::domain::interval::bucket_fits(aggregator.span(), timestamp_ms as int);
        },
    }
}

/// A candle that is handed out is closed and lies before the candle that is
/// then open, so the candles of one interval come out in the order of time.
pub proof fn closed_candles_come_in_order<F: Fn(Calc) -> Double>(
    before: Aggregator,
    input: Candle,
    calc: F,
    closed: Candle,
    after: Aggregator,
)
    requires
        before.takes(input),
        before.advances(input, calc, Ok::<Option<Candle>, AggregationError>(Some(closed)), after),
    ensures
        closed.is_closed,
        before.open_candle() matches Some(current) && current.open_time == closed.open_time,
        after.open_candle() matches Some(next) && closed.open_time < next.open_time,
{
}

/// What is taken in lands in the bucket of its own time.
pub proof fn inputs_land_in_their_bucket<F: Fn(Calc) -> Double>(
    before: Aggregator,
    input: Candle,
    calc: F,
    r: Result<Option<Candle>, AggregationError>,
    after: Aggregator,
)
    requires
        before.takes(input),
        before.advances(input, calc, r, after),
        r is Ok,
    ensures
        after.open_candle() matches Some(current) && {
            &&& current.open_time == before.bucket(input.open_time as int)
            &&& current.close == input.close
            &&& input.close_time <= current.close_time
        },
{
    bucket_is_a_time(before, input.open_time);
}

/// Taking in candles whose price stays between low and high keeps the open
/// candle so.
pub proof fn aggregation_keeps_prices_ordered<F: Fn(Calc) -> Double>(
    before: Aggregator,
    input: Candle,
    calc: F,
    r: Result<Option<Candle>, AggregationError>,
    after: Aggregator,
)
    requires
        before.advances(input, calc, r, after),
        before.open_candle() matches Some(current) ==> current.ordered(),
        input.ordered(),
    ensures
        after.open_candle() matches Some(current) && current.ordered(),
        r matches Ok(Some(closed)) ==> closed.ordered(),
{
}

/// `start` is where the bucket of an instant starts: at most one length before
/// the instant, and a whole number of lengths from the anchor, where there is
/// one; where there is none, where the interval puts it.
pub open spec fn starts_bucket(aggregator: Aggregator, timestamp_ms: int, start: int) -> bool {
    match aggregator.anchor() {
        Some(anchor_ms) => {
            &&& start <= timestamp_ms < start + aggregator.span().millis()
            &&& (start - anchor_ms) % aggregator.span().millis() == 0
        },
        None => start == aggregator.span().bucket(timestamp_ms),
    }
}

/// An input of an earlier bucket than the open candle's is refused and changes
/// nothing. One of a later bucket closes the open candle, which is handed out
/// as it was, and opens a new one, which is the input over the whole bucket.
/// One of the same bucket is taken in: it brings the close, it can widen the
/// reach, and its trades and volumes are added. Nothing else is handed out.
pub proof fn inputs_open_grow_or_close_a_candle<F: Fn(Calc) -> Double>(
    before: Aggregator,
    input: Candle,
    calc: F,
    r: Result<Option<Candle>, AggregationError>,
    after: Aggregator,
    start: int,
)
    requires
        before.takes(input),
        before.span().millis() > 0,
        starts_bucket(before, input.open_time as int, start),
        before.advances(input, calc, r, after),
    ensures
        after.span() == before.span() && after.anchor() == before.anchor(),
        r is Err <==> (before.open_candle() matches Some(current) && start < current.open_time),
        r is Err ==> after.open_candle() == before.open_candle(),
        (r matches Ok(Some(_))) <==> (before.open_candle() matches Some(current)
            && current.open_time < start),
        r matches Ok(Some(closed)) ==> (before.open_candle() matches Some(current) && closed == (
        Candle { is_closed: true, ..current })),
        before.open_candle() is None || (r matches Ok(Some(_))) ==> (
        after.open_candle() matches Some(opened) && {
            let end = start + before.span().millis() - 1;
            &&& opened == (Candle {
                open_time: opened.open_time,
                close_time: opened.close_time,
                ..input
            })
            &&& opened.open_time == start
            &&& opened.close_time >= end && opened.close_time >= input.close_time
            &&& opened.close_time == end || opened.close_time == input.close_time
        }),
        before.open_candle() matches Some(current) ==> current.open_time == start ==> (
        after.open_candle() matches Some(grown) && {
            let end = start + before.span().millis() - 1;
            &&& r == Ok::<Option<Candle>, AggregationError>(None)
            &&& grown.open_time == start && grown.open == current.open
            &&& grown.close == input.close && grown.is_closed == input.is_closed
            &&& grown.close_time >= current.close_time && grown.close_time >= input.close_time
                && grown.close_time >= end
            &&& grown.close_time == current.close_time || grown.close_time == input.close_time
                || grown.close_time == end
            &&& grown.high == current.high || grown.high == input.high
            &&& !grown.high.lt(current.high) && !grown.high.lt(input.high)
            &&& grown.low == current.low || grown.low == input.low
            &&& !current.low.lt(grown.low) && !input.low.lt(grown.low)
            &&& grown.trade_count == current.trade_count + input.trade_count
            &&& call_ensures(calc, (Calc::Add(current.volume, input.volume),), grown.volume)
            &&& call_ensures(
                calc,
                (Calc::Add(current.quote_volume, input.quote_volume),),
                grown.quote_volume,
            )
        }),
{
    bucket_is_a_time(before, input.open_time);
    let t = input.open_time as int;
    let step = before.span().millis();
    if let Some(anchor_ms) = before.anchor() {
        let a = anchor_ms as int;
        let own = before.bucket(t);
        vstd::arithmetic::div_mod::lemma_fundamental_div_mod(t - a, step);
        vstd::arithmetic::div_mod::lemma_mod_bound(t - a, step);
        let q = (t - a) / step;
        vstd::arithmetic::mul::lemma_mul_is_commutative(step, q);
        assert(own == a + q * step);
        vstd::arithmetic::div_mod::lemma_fundamental_div_mod(start - a, step);
        let p = (start - a) / step;
        vstd::arithmetic::mul::lemma_mul_is_commutative(step, p);
        assert(start == a + p * step);
        assert(p == q) by (nonlinear_arith)
            requires
                a + p * step <= t < a + p * step + step,
                a + q * step <= t < a + q * step + step,
                step > 0,
        ;
    }
}

/// Every input since the epoch, up to the end of the calendar, can be taken in
/// where no candle is open.
pub proof fn first_inputs_of_the_calendar_fit(aggregator: Aggregator, input: Candle)
    requires
        aggregator.span().supported(),
        aggregator.anchor() is None,
        aggregator.open_candle() is None,
        0 <= input.open_time <= 8_210_266_876_799_999,
    ensures
        aggregator.takes(input),
{
    let step = aggregator.span().millis();
    assert(0 < step <= 864_000_000);
    crate::domain::interval::instants_since_the_epoch_have_a_bucket(
        aggregator.span(),
        input.open_time as int,
    );
}

} // verus!
