//! One candle: the prices, volumes and trades of one stretch of time.

use crate::domain::number::{calculates, Calc, Double};
use vstd::prelude::*;

verus! {

/// One candle. Times are milliseconds since the epoch.
#[derive(Debug, Clone, Copy, PartialEq, Eq, Structural)]
pub struct Candle {
    pub open_time: i64,
    pub close_time: i64,
    pub open: Double,
    pub high: Double,
    pub low: Double,
    pub close: Double,
    pub volume: Double,
    pub quote_volume: Double,
    pub trade_count: u64,
    pub is_closed: bool,
}

pub open spec fn later(a: i64, b: i64) -> i64 {
    if a < b {
        b
    } else {
        a
    }
}

impl Candle {
    /// The price stayed between the low and the high: both ends and the
    /// closing prices are numbers in order.
    pub open spec fn ordered(self) -> bool {
        &&& self.low.le(self.open)
        &&& self.low.le(self.close)
        &&& self.open.le(self.high)
        &&& self.close.le(self.high)
    }

    /// `after` is this candle with `other` taken in: the first one's opening,
    /// the last one's closing, the extremes of both, and the sums that `calc`
    /// gives.
    pub open spec fn merged<F: Fn(Calc) -> Double>(
        self,
        other: Candle,
        calc: F,
        after: Candle,
    ) -> bool {
        &&& after.open_time == self.open_time
        &&& after.close_time == later(self.close_time, other.close_time)
        &&& after.open == self.open
        &&& after.high == self.high.larger(other.high)
        &&& after.low == self.low.smaller(other.low)
        &&& after.close == other.close
        &&& call_ensures(calc, (Calc::Add(self.volume, other.volume),), after.volume)
        &&& call_ensures(
            calc,
            (Calc::Add(self.quote_volume, other.quote_volume),),
            after.quote_volume,
        )
        &&& after.trade_count == self.trade_count + other.trade_count
        &&& after.is_closed == other.is_closed
    }

    /// The candle of a single trade. `quote` is the price times the quantity.
    pub open spec fn of_trade(
        timestamp_ms: i64,
        price: Double,
        quantity: Double,
        quote: Double,
    ) -> Candle {
        Candle {
            open_time: timestamp_ms,
            close_time: timestamp_ms,
            open: price,
            high: price,
            low: price,
            close: price,
            volume: quantity,
            quote_volume: quote,
            trade_count: 1,
            is_closed: false,
        }
    }

    /// The same candle, marked closed.
    pub open spec fn finalized(self) -> Candle {
        Candle { is_closed: true, ..self }
    }

    /// The candle of a trade, with the price times the quantity as the quote
    /// volume.
    pub fn from_trade<F: Fn(Calc) -> Double>(
        timestamp_ms: i64,
        price: Double,
        quantity: Double,
        calc: &F,
    ) -> (r: Self)
        requires
            calculates(*calc),
        ensures
            r == Candle::of_trade(timestamp_ms, price, quantity, r.quote_volume),
            call_ensures(*calc, (Calc::Multiply(price, quantity),), r.quote_volume),
    {
        let quote = calc(Calc::Multiply(price, quantity));
        Candle {
            open_time: timestamp_ms,
            close_time: timestamp_ms,
            open: price,
            high: price,
            low: price,
            close: price,
            volume: quantity,
            quote_volume: quote,
            trade_count: 1,
            is_closed: false,
        }
    }

    pub fn merge_from<F: Fn(Calc) -> Double>(&mut self, other: &Self, calc: &F)
        requires
            calculates(*calc),
            old(self).trade_count + other.trade_count <= u64::MAX,
        ensures
            old(self).merged(*other, *calc, *final(self)),
    {
        self.high = self.high.max(other.high);
        self.low = self.low.min(other.low);
        self.close = other.close;
        self.close_time = if self.close_time < other.close_time {
            other.close_time
        } else {
            self.close_time
        };
        self.volume = calc(Calc::Add(self.volume, other.volume));
        self.quote_volume = calc(Calc::Add(self.quote_volume, other.quote_volume));
        self.trade_count = self.trade_count + other.trade_count;
        self.is_closed = other.is_closed;
    }

    pub fn finalize(self) -> (r: Self)
        ensures
            r == self.finalized(),
    {
        Candle { is_closed: true, ..self }
    }
}

/// Taking one candle into another keeps the price between low and high.
pub proof fn merging_keeps_prices_ordered<F: Fn(Calc) -> Double>(
    first: Candle,
    second: Candle,
    calc: F,
    after: Candle,
)
    requires
        first.ordered(),
        second.ordered(),
        first.merged(second, calc, after),
    ensures
        after.ordered(),
        after.low.le(first.low) && after.low.le(second.low),
        first.high.le(after.high) && second.high.le(after.high),
{
}

/// The candle of a trade has its price between low and high, where the price
/// is a number.
pub proof fn trade_candles_are_ordered(
    timestamp_ms: i64,
    price: Double,
    quantity: Double,
    quote: Double,
)
    requires
        !price.nan(),
    ensures
        Candle::of_trade(timestamp_ms, price, quantity, quote).ordered(),
{
}

/// A candle that takes in another opens as it did and closes as the other did,
/// no earlier than either; it reaches as far as the two of them did and no
/// further, and counts the trades of both.
pub proof fn merging_joins_two_candles<F: Fn(Calc) -> Double>(
    first: Candle,
    second: Candle,
    calc: F,
    after: Candle,
)
    requires
        first.merged(second, calc, after),
    ensures
        after.open_time == first.open_time && after.open == first.open,
        after.close == second.close && after.is_closed == second.is_closed,
        after.close_time == first.close_time || after.close_time == second.close_time,
        after.close_time >= first.close_time && after.close_time >= second.close_time,
        after.high == first.high || after.high == second.high,
        !after.high.lt(first.high) && !after.high.lt(second.high),
        after.high.nan() ==> first.high.nan() && second.high.nan(),
        after.low == first.low || after.low == second.low,
        !first.low.lt(after.low) && !second.low.lt(after.low),
        after.low.nan() ==> first.low.nan() && second.low.nan(),
        after.trade_count - first.trade_count == second.trade_count,
        call_ensures(calc, (Calc::Add(first.volume, second.volume),), after.volume),
        call_ensures(
            calc,
            (Calc::Add(first.quote_volume, second.quote_volume),),
            after.quote_volume,
        ),
{
}

/// Trades that are taken in one after the other leave a candle from the first
/// price to the last, with two trades and both prices within its reach.
pub proof fn two_trades_make_one_candle<F: Fn(Calc) -> Double>(
    first: (i64, Double, Double, Double),
    second: (i64, Double, Double, Double),
    calc: F,
    after: Candle,
)
    requires
        !first.1.nan() && !second.1.nan(),
        Candle::of_trade(first.0, first.1, first.2, first.3).merged(
            Candle::of_trade(second.0, second.1, second.2, second.3),
            calc,
            after,
        ),
    ensures
        after.open_time == first.0 && after.close_time >= second.0,
        after.open == first.1 && after.close == second.1,
        after.low.le(first.1) && after.low.le(second.1),
        first.1.le(after.high) && second.1.le(after.high),
        first.1.lt(second.1) ==> after.low == first.1 && after.high == second.1,
        call_ensures(calc, (Calc::Add(first.2, second.2),), after.volume),
        call_ensures(calc, (Calc::Add(first.3, second.3),), after.quote_volume),
        after.trade_count == 2 && !after.is_closed,
{
}

/// Closing a candle changes nothing else in it, and once is enough.
pub proof fn closing_changes_the_mark_alone(candle: Candle)
    ensures
        candle.finalized().is_closed,
        candle.finalized().finalized() == candle.finalized(),
        candle.is_closed ==> candle.finalized() == candle,
        candle.finalized().open_time == candle.open_time && candle.finalized().close_time
            == candle.close_time,
        candle.finalized().open == candle.open && candle.finalized().close == candle.close,
        candle.finalized().high == candle.high && candle.finalized().low == candle.low,
        candle.finalized().volume == candle.volume && candle.finalized().quote_volume
            == candle.quote_volume,
        candle.finalized().trade_count == candle.trade_count,
{
}

} // verus!
