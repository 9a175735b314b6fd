//! The deviation of the price from its moving average, measured in true
//! ranges, with the trend of the average and the rank of the volatility.
//!
//! The arithmetic on numbers is handed in as a function. Every contract says
//! what comes out for each function that the arithmetic computes.

use crate::domain::candle::Candle;
use crate::domain::number::{calculates, computes, Calc, Double};
use vstd::prelude::*;

verus! {

#[derive(Debug, Clone, Copy, PartialEq, Eq, Structural)]
pub enum MaType {
    Sma,
    Ema,
    Smma,
    Wma,
    Vwma,
}

#[derive(Debug, Clone, Copy, PartialEq, Eq, Structural)]
pub struct GuailiConfig {
    pub ma_length: usize,
    pub ma_type: MaType,
    pub atr_len: usize,
    pub atr_percent_len: usize,
    pub max_atr_rank: Double,
    pub slope_mul: Double,
    pub use_slope: bool,
}

/// The bits of one hundred.
pub const HUNDRED_BITS: u64 = 0x4059_0000_0000_0000;

/// The bits of one tenth, rounded.
pub const TENTH_BITS: u64 = 0x3FB9_9999_9999_999A;

impl Default for GuailiConfig {
    fn default() -> (r: Self)
        ensures
            r == GuailiConfig::standard(),
    {
        GuailiConfig {
            ma_length: 20,
            ma_type: MaType::Ema,
            atr_len: 1,
            atr_percent_len: 20,
            max_atr_rank: Double { bits: HUNDRED_BITS },
            slope_mul: Double { bits: TENTH_BITS },
            use_slope: true,
        }
    }
}

impl GuailiConfig {
    pub open spec fn standard() -> GuailiConfig {
        GuailiConfig {
            ma_length: 20,
            ma_type: MaType::Ema,
            atr_len: 1,
            atr_percent_len: 20,
            max_atr_rank: Double { bits: HUNDRED_BITS },
            slope_mul: Double { bits: TENTH_BITS },
            use_slope: true,
        }
    }
}

#[derive(Debug, Clone, Copy, PartialEq, Eq, Structural)]
pub struct GuailiPoint {
    pub open_time: i64,
    pub close_time: i64,
    pub ma: Double,
    pub atr14: Double,
    pub atr_rank: Option<Double>,
    pub rank_filter: bool,
    pub guaili: Double,
    pub value: i32,
    pub long_trend: bool,
    pub short_trend: bool,
    pub is_closed: bool,
}

/// `whole` takes every number.
pub open spec fn rounds<W: Fn(Double) -> i32>(whole: W) -> bool {
    forall|x: Double| call_requires(whole, (x,))
}

/// `whole` computes the function `g`.
pub open spec fn computes_whole<W: Fn(Double) -> i32>(whole: W, g: spec_fn(Double) -> i32) -> bool {
    forall|x: Double, r: i32| #[trigger] call_ensures(whole, (x,), r) ==> r == g(x)
}

pub open spec fn zero() -> Double {
    Double { bits: 0 }
}

// ---------------------------------------------------------------------------
// The averages.
// ---------------------------------------------------------------------------

/// The sum from left to right.
pub open spec fn total(f: spec_fn(Calc) -> Double, values: Seq<Double>) -> Double
    decreases values.len(),
{
    if values.len() == 0 {
        f(Calc::Start)
    } else {
        f(Calc::Add(total(f, values.drop_last()), values.last()))
    }
}

pub open spec fn mean_of(f: spec_fn(Calc) -> Double, values: Seq<Double>) -> Double {
    f(Calc::Divide(total(f, values), f(Calc::Count(values.len() as usize))))
}

/// The first index of the window of `length` values that ends at `index`.
pub open spec fn window_start(index: int, length: int) -> int {
    if index + 1 < length {
        0
    } else {
        index + 1 - length
    }
}

/// The window of at most `length` items that ends at `index`.
pub open spec fn window_at<T>(values: Seq<T>, index: int, length: int) -> Seq<T> {
    values.subrange(window_start(index, length), index + 1)
}

/// The weight of an exponential average.
pub open spec fn ema_weight(f: spec_fn(Calc) -> Double, length: usize) -> Double {
    f(
        Calc::Divide(
            f(Calc::Count(2)),
            f(Calc::Add(f(Calc::Count(length)), f(Calc::Count(1)))),
        ),
    )
}

/// The exponential average: it starts with the first value and moves towards
/// each next one by its weight.
pub open spec fn ema_at(
    f: spec_fn(Calc) -> Double,
    values: Seq<Double>,
    length: usize,
    index: int,
) -> Double
    decreases index,
{
    if index <= 0 {
        values[0]
    } else {
        let weight = ema_weight(f, length);
        f(
            Calc::Add(
                f(Calc::Multiply(weight, values[index])),
                f(
                    Calc::Multiply(
                        f(Calc::Subtract(f(Calc::Count(1)), weight)),
                        ema_at(f, values, length, index - 1),
                    ),
                ),
            ),
        )
    }
}

/// The smoothed average: it starts with the first value, and each next one
/// counts for one in `length`.
pub open spec fn rma_at(
    f: spec_fn(Calc) -> Double,
    values: Seq<Double>,
    length: usize,
    index: int,
) -> Double
    decreases index,
{
    if index <= 0 {
        values[0]
    } else {
        f(
            Calc::Divide(
                f(
                    Calc::Add(
                        f(
                            Calc::Multiply(
                                rma_at(f, values, length, index - 1),
                                f(Calc::Subtract(f(Calc::Count(length)), f(Calc::Count(1)))),
                            ),
                        ),
                        values[index],
                    ),
                ),
                f(Calc::Count(length)),
            ),
        )
    }
}

/// The sum of the values, each times its number from one on.
pub open spec fn weighted_total(f: spec_fn(Calc) -> Double, values: Seq<Double>) -> Double
    decreases values.len(),
{
    if values.len() == 0 {
        zero()
    } else {
        f(
            Calc::Add(
                weighted_total(f, values.drop_last()),
                f(Calc::Multiply(values.last(), f(Calc::Count(values.len() as usize)))),
            ),
        )
    }
}

/// The sum of the numbers from one to `n`.
pub open spec fn weight_total(f: spec_fn(Calc) -> Double, n: nat) -> Double
    decreases n,
{
    if n == 0 {
        zero()
    } else {
        f(Calc::Add(weight_total(f, (n - 1) as nat), f(Calc::Count(n as usize))))
    }
}

pub open spec fn wma_of(f: spec_fn(Calc) -> Double, values: Seq<Double>) -> Double {
    f(Calc::Divide(weighted_total(f, values), weight_total(f, values.len())))
}

pub open spec fn closes_of(candles: Seq<Candle>) -> Seq<Double> {
    candles.map_values(|candle: Candle| candle.close)
}

pub open spec fn volumes_of(candles: Seq<Candle>) -> Seq<Double> {
    candles.map_values(|candle: Candle| candle.volume)
}

/// The closing prices times the volumes.
pub open spec fn turnovers_of(f: spec_fn(Calc) -> Double, candles: Seq<Candle>) -> Seq<Double> {
    candles.map_values(|candle: Candle| f(Calc::Multiply(candle.close, candle.volume)))
}

/// The average weighted by volume; the plain one where there is no volume.
pub open spec fn vwma_of(f: spec_fn(Calc) -> Double, candles: Seq<Candle>) -> Double {
    let volume = total(f, volumes_of(candles));
    if volume.same(zero()) {
        mean_of(f, closes_of(candles))
    } else {
        f(Calc::Divide(total(f, turnovers_of(f, candles)), volume))
    }
}

/// The moving average at an index.
pub open spec fn ma_at(
    f: spec_fn(Calc) -> Double,
    candles: Seq<Candle>,
    length: usize,
    ma_type: MaType,
    index: int,
) -> Double {
    let closes = closes_of(candles);
    match ma_type {
        MaType::Sma => mean_of(f, window_at(closes, index, length as int)),
        MaType::Ema => ema_at(f, closes, length, index),
        MaType::Smma => rma_at(f, closes, length, index),
        MaType::Wma => wma_of(f, window_at(closes, index, length as int)),
        MaType::Vwma => vwma_of(f, window_at(candles, index, length as int)),
    }
}

// ---------------------------------------------------------------------------
// The volatility.
// ---------------------------------------------------------------------------

/// The range of a candle, with the close before it.
pub open spec fn true_range_at(
    f: spec_fn(Calc) -> Double,
    candles: Seq<Candle>,
    index: int,
) -> Double {
    let candle = candles[index];
    let range = f(Calc::Subtract(candle.high, candle.low));
    if index <= 0 {
        range
    } else {
        let previous = candles[index - 1].close;
        range.larger(f(Calc::Absolute(f(Calc::Subtract(candle.high, previous))))).larger(
            f(Calc::Absolute(f(Calc::Subtract(candle.low, previous)))),
        )
    }
}

pub open spec fn true_ranges_of(f: spec_fn(Calc) -> Double, candles: Seq<Candle>) -> Seq<Double> {
    Seq::new(candles.len(), |i: int| true_range_at(f, candles, i))
}

/// The smoothed range against the middle of the candle.
pub open spec fn relative_range_at(
    f: spec_fn(Calc) -> Double,
    candles: Seq<Candle>,
    length: usize,
    index: int,
) -> Double {
    f(
        Calc::Multiply(
            f(
                Calc::Divide(
                    rma_at(f, true_ranges_of(f, candles), length, index),
                    f(Calc::Add(candles[index].high, candles[index].low)),
                ),
            ),
            f(Calc::Count(2)),
        ),
    )
}

pub open spec fn relative_ranges_of(
    f: spec_fn(Calc) -> Double,
    candles: Seq<Candle>,
    length: usize,
) -> Seq<Double> {
    Seq::new(candles.len(), |i: int| relative_range_at(f, candles, length, i))
}

/// How many of the values are at most `value`.
pub open spec fn count_at_most(values: Seq<Double>, value: Double) -> nat {
    values.filter(|item: Double| item.le(value)).len()
}

/// The share of the last `length` values that are at most the value at the
/// index, the value itself not counted, in percent; none before there are
/// `length` values.
pub open spec fn rank_at(
    f: spec_fn(Calc) -> Double,
    values: Seq<Double>,
    length: usize,
    index: int,
) -> Option<Double> {
    if index + 1 < length {
        None
    } else {
        let below = count_at_most(window_at(values, index, length as int), values[index]) as usize;
        Some(
            f(
                Calc::Multiply(
                    f(
                        Calc::Divide(
                            f(Calc::Subtract(f(Calc::Count(below)), f(Calc::Count(1)))),
                            f(Calc::Subtract(f(Calc::Count(length)), f(Calc::Count(1)))),
                        ),
                    ),
                    f(Calc::Count(100)),
                ),
            ),
        )
    }
}

// ---------------------------------------------------------------------------
// The points.
// ---------------------------------------------------------------------------

pub open spec fn at_least(n: usize, least: usize) -> usize {
    if n < least {
        least
    } else {
        n
    }
}

/// How far a candle that lies wholly on one side of the average is from it,
/// in average ranges: positive above, negative below, zero else.
pub open spec fn deviation(
    f: spec_fn(Calc) -> Double,
    candle: Candle,
    ma: Double,
    range: Double,
) -> Double {
    if ma.lt(candle.low) && ma.lt(candle.high) && !range.same(zero()) {
        f(Calc::Divide(f(Calc::Subtract(candle.low, ma)), range))
    } else if candle.high.lt(ma) && candle.low.lt(ma) && !range.same(zero()) {
        f(Calc::Negate(f(Calc::Divide(f(Calc::Subtract(ma, candle.high)), range))))
    } else {
        zero()
    }
}

/// The average rose, in each of the last three steps.
pub open spec fn rising(averages: Seq<Double>, index: int) -> bool {
    &&& index >= 3
    &&& averages[index - 1].lt(averages[index])
    &&& averages[index - 2].lt(averages[index - 1])
    &&& averages[index - 3].lt(averages[index - 2])
}

/// The average fell, in each of the last three steps.
pub open spec fn falling(averages: Seq<Double>, index: int) -> bool {
    &&& index >= 3
    &&& averages[index].lt(averages[index - 1])
    &&& averages[index - 1].lt(averages[index - 2])
    &&& averages[index - 2].lt(averages[index - 3])
}

/// The average moved far enough in three steps, if that is asked for.
pub open spec fn steep(
    f: spec_fn(Calc) -> Double,
    averages: Seq<Double>,
    range: Double,
    config: GuailiConfig,
    index: int,
) -> bool {
    let slope = if index >= 3 {
        f(Calc::Absolute(f(Calc::Subtract(averages[index], averages[index - 3]))))
    } else {
        zero()
    };
    !config.use_slope || f(Calc::Multiply(range, config.slope_mul)).lt(slope)
}

/// The point at an index, from the averages, the average ranges and the ranks.
pub open spec fn point_at(
    f: spec_fn(Calc) -> Double,
    g: spec_fn(Double) -> i32,
    candles: Seq<Candle>,
    averages: Seq<Double>,
    ranges: Seq<Double>,
    ranks: Seq<Option<Double>>,
    config: GuailiConfig,
    index: int,
) -> GuailiPoint {
    let candle = candles[index];
    let ma = averages[index];
    let range = ranges[index];
    let before = if index > 0 {
        ranges[index - 1]
    } else {
        range
    };
    let guaili = deviation(f, candle, ma, before);
    let slope_ok = steep(f, averages, range, config, index);
    GuailiPoint {
        open_time: candle.open_time,
        close_time: candle.close_time,
        ma,
        atr14: range,
        atr_rank: ranks[index],
        rank_filter: ranks[index] matches Some(rank) && rank.le(config.max_atr_rank),
        guaili,
        value: g(f(Calc::Multiply(guaili, f(Calc::Count(10))))),
        long_trend: rising(averages, index) && slope_ok,
        short_trend: falling(averages, index) && slope_ok,
        is_closed: candle.is_closed,
    }
}

pub open spec fn averages_of(
    f: spec_fn(Calc) -> Double,
    candles: Seq<Candle>,
    config: GuailiConfig,
) -> Seq<Double> {
    Seq::new(
        candles.len(),
        |i: int| ma_at(f, candles, at_least(config.ma_length, 1), config.ma_type, i),
    )
}

pub open spec fn ranges_of(f: spec_fn(Calc) -> Double, candles: Seq<Candle>) -> Seq<Double> {
    Seq::new(candles.len(), |i: int| rma_at(f, true_ranges_of(f, candles), 14, i))
}

pub open spec fn ranks_of(
    f: spec_fn(Calc) -> Double,
    candles: Seq<Candle>,
    config: GuailiConfig,
) -> Seq<Option<Double>> {
    let relative = relative_ranges_of(f, candles, at_least(config.atr_len, 1));
    Seq::new(
        candles.len(),
        |i: int| rank_at(f, relative, at_least(config.atr_percent_len, 1), i),
    )
}

/// One point for each candle.
pub open spec fn points_of(
    f: spec_fn(Calc) -> Double,
    g: spec_fn(Double) -> i32,
    candles: Seq<Candle>,
    config: GuailiConfig,
) -> Seq<GuailiPoint> {
    let averages = averages_of(f, candles, config);
    let ranges = ranges_of(f, candles);
    let ranks = ranks_of(f, candles, config);
    Seq::new(
        candles.len(),
        |i: int| point_at(f, g, candles, averages, ranges, ranks, config, i),
    )
}

// ---------------------------------------------------------------------------
// Computing them.
// ---------------------------------------------------------------------------

fn total_range<C: Fn(Calc) -> Double>(
    values: &Vec<Double>,
    start: usize,
    end: usize,
    calc: &C,
) -> (r: Double)
    requires
        calculates(*calc),
        start <= end <= values@.len(),
    ensures
        forall|f: spec_fn(Calc) -> Double| #[trigger]
            computes(*calc, f) ==> r == total(f, values@.subrange(start as int, end as int)),
{
    let mut sum = calc(Calc::Start);
    let mut i: usize = start;
    while i < end
        invariant
            start <= i <= end <= values@.len(),
            calculates(*calc),
            forall|f: spec_fn(Calc) -> Double| #[trigger]
                computes(*calc, f) ==> sum == total(f, values@.subrange(start as int, i as int)),
        decreases end - i,
    {
        let next = calc(Calc::Add(sum, values[i]));
        assert(values@.subrange(start as int, i + 1).drop_last() =~= values@.subrange(
            start as int,
            i as int,
        ));
        sum = next;
        i += 1;
    }
    sum
}

fn mean_range<C: Fn(Calc) -> Double>(
    values: &Vec<Double>,
    start: usize,
    end: usize,
    calc: &C,
) -> (r: Double)
    requires
        calculates(*calc),
        start <= end <= values@.len(),
    ensures
        forall|f: spec_fn(Calc) -> Double| #[trigger]
            computes(*calc, f) ==> r == mean_of(f, values@.subrange(start as int, end as int)),
{
    let sum = total_range(values, start, end, calc);
    let count = calc(Calc::Count(end - start));
    calc(Calc::Divide(sum, count))
}

fn start_of_window(index: usize, length: usize) -> (r: usize)
    requires
        index < usize::MAX,
        length > 0,
    ensures
        r == window_start(index as int, length as int),
        r <= index,
{
    if index + 1 < length {
        0
    } else {
        index + 1 - length
    }
}

fn closes(candles: &Vec<Candle>) -> (r: Vec<Double>)
    ensures
        r@ == closes_of(candles@),
{
    let mut out: Vec<Double> = Vec::new();
    let mut i: usize = 0;
    while i < candles.len()
        invariant
            i <= candles@.len(),
            out@ == closes_of(candles@.take(i as int)),
        decreases candles@.len() - i,
    {
        out.push(candles[i].close);
        i += 1;
        assert(out@ =~= closes_of(candles@.take(i as int)));
    }
    assert(candles@.take(i as int) =~= candles@);
    out
}

fn volumes(candles: &Vec<Candle>) -> (r: Vec<Double>)
    ensures
        r@ == volumes_of(candles@),
{
    let mut out: Vec<Double> = Vec::new();
    let mut i: usize = 0;
    while i < candles.len()
        invariant
            i <= candles@.len(),
            out@ == volumes_of(candles@.take(i as int)),
        decreases candles@.len() - i,
    {
        out.push(candles[i].volume);
        i += 1;
        assert(out@ =~= volumes_of(candles@.take(i as int)));
    }
    assert(candles@.take(i as int) =~= candles@);
    out
}

fn sma_values<C: Fn(Calc) -> Double>(values: &Vec<Double>, length: usize, calc: &C) -> (r: Vec<
    Double,
>)
    requires
        calculates(*calc),
        length > 0,
    ensures
        r@.len() == values@.len(),
        forall|f: spec_fn(Calc) -> Double, i: int|
            #![trigger computes(*calc, f), r@[i]]
            computes(*calc, f) && 0 <= i < r@.len() ==> r@[i] == mean_of(
                f,
                window_at(values@, i, length as int),
            ),
{
    let mut out: Vec<Double> = Vec::new();
    let mut index: usize = 0;
    while index < values.len()
        invariant
            index <= values@.len(),
            calculates(*calc),
            length > 0,
            out@.len() == index,
            forall|f: spec_fn(Calc) -> Double, i: int|
                #![trigger computes(*calc, f), out@[i]]
                computes(*calc, f) && 0 <= i < out@.len() ==> out@[i] == mean_of(
                    f,
                    window_at(values@, i, length as int),
                ),
        decreases values@.len() - index,
    {
        let start: usize = start_of_window(index, length);
        out.push(mean_range(values, start, index + 1, calc));
        index += 1;
    }
    out
}

fn ema_values<C: Fn(Calc) -> Double>(values: &Vec<Double>, length: usize, calc: &C) -> (r: Vec<
    Double,
>)
    requires
        calculates(*calc),
    ensures
        r@.len() == values@.len(),
        forall|f: spec_fn(Calc) -> Double, i: int|
            #![trigger computes(*calc, f), r@[i]]
            computes(*calc, f) && 0 <= i < r@.len() ==> r@[i] == ema_at(f, values@, length, i),
{
    let one = calc(Calc::Count(1));
    let two = calc(Calc::Count(2));
    let count = calc(Calc::Count(length));
    let spread = calc(Calc::Add(count, one));
    let weight = calc(Calc::Divide(two, spread));
    let rest = calc(Calc::Subtract(one, weight));
    let mut out: Vec<Double> = Vec::new();
    let mut index: usize = 0;
    while index < values.len()
        invariant
            index <= values@.len(),
            calculates(*calc),
            out@.len() == index,
            forall|f: spec_fn(Calc) -> Double| #[trigger]
                computes(*calc, f) ==> weight == ema_weight(f, length) && rest == f(
                    Calc::Subtract(f(Calc::Count(1)), weight),
                ),
            forall|f: spec_fn(Calc) -> Double, i: int|
                #![trigger computes(*calc, f), out@[i]]
                computes(*calc, f) && 0 <= i < out@.len() ==> out@[i] == ema_at(
                    f,
                    values@,
                    length,
                    i,
                ),
        decreases values@.len() - index,
    {
        if index == 0 {
            out.push(values[0]);
        } else {
            let previous = out[index - 1];
            let near = calc(Calc::Multiply(weight, values[index]));
            let far = calc(Calc::Multiply(rest, previous));
            let next = calc(Calc::Add(near, far));
            assert forall|f: spec_fn(Calc) -> Double| #[trigger] computes(
                *calc,
                f,
            ) implies next == ema_at(f, values@, length, index as int) by {
                assert(out@[index - 1] == previous);
            }
            out.push(next);
        }
        index += 1;
    }
    out
}

fn rma_values<C: Fn(Calc) -> Double>(values: &Vec<Double>, length: usize, calc: &C) -> (r: Vec<
    Double,
>)
    requires
        calculates(*calc),
    ensures
        r@.len() == values@.len(),
        forall|f: spec_fn(Calc) -> Double, i: int|
            #![trigger computes(*calc, f), r@[i]]
            computes(*calc, f) && 0 <= i < r@.len() ==> r@[i] == rma_at(f, values@, length, i),
{
    let one = calc(Calc::Count(1));
    let count = calc(Calc::Count(length));
    let rest = calc(Calc::Subtract(count, one));
    let mut out: Vec<Double> = Vec::new();
    let mut index: usize = 0;
    while index < values.len()
        invariant
            index <= values@.len(),
            calculates(*calc),
            out@.len() == index,
            forall|f: spec_fn(Calc) -> Double| #[trigger]
                computes(*calc, f) ==> count == f(Calc::Count(length)) && rest == f(
                    Calc::Subtract(f(Calc::Count(length)), f(Calc::Count(1))),
                ),
            forall|f: spec_fn(Calc) -> Double, i: int|
                #![trigger computes(*calc, f), out@[i]]
                computes(*calc, f) && 0 <= i < out@.len() ==> out@[i] == rma_at(
                    f,
                    values@,
                    length,
                    i,
                ),
        decreases values@.len() - index,
    {
        if index == 0 {
            out.push(values[0]);
        } else {
            let previous = out[index - 1];
            let kept = calc(Calc::Multiply(previous, rest));
            let sum = calc(Calc::Add(kept, values[index]));
            let next = calc(Calc::Divide(sum, count));
            assert forall|f: spec_fn(Calc) -> Double| #[trigger] computes(
                *calc,
                f,
            ) implies next == rma_at(f, values@, length, index as int) by {
                assert(out@[index - 1] == previous);
            }
            out.push(next);
        }
        index += 1;
    }
    out
}

fn weighted_mean<C: Fn(Calc) -> Double>(
    values: &Vec<Double>,
    start: usize,
    end: usize,
    calc: &C,
) -> (r: Double)
    requires
        calculates(*calc),
        start <= end <= values@.len(),
    ensures
        forall|f: spec_fn(Calc) -> Double| #[trigger]
            computes(*calc, f) ==> r == wma_of(f, values@.subrange(start as int, end as int)),
{
    let mut weighted_sum = Double { bits: 0 };
    let mut weight_sum = Double { bits: 0 };
    let mut i: usize = start;
    while i < end
        invariant
            start <= i <= end <= values@.len(),
            calculates(*calc),
            forall|f: spec_fn(Calc) -> Double| #[trigger]
                computes(*calc, f) ==> weighted_sum == weighted_total(
                    f,
                    values@.subrange(start as int, i as int),
                ) && weight_sum == weight_total(f, (i - start) as nat),
        decreases end - i,
    {
        let weight = calc(Calc::Count(i - start + 1));
        let part = calc(Calc::Multiply(values[i], weight));
        let next_sum = calc(Calc::Add(weighted_sum, part));
        let next_weight = calc(Calc::Add(weight_sum, weight));
        assert(values@.subrange(start as int, i + 1).drop_last() =~= values@.subrange(
            start as int,
            i as int,
        ));
        weighted_sum = next_sum;
        weight_sum = next_weight;
        i += 1;
    }
    calc(Calc::Divide(weighted_sum, weight_sum))
}

fn wma_values<C: Fn(Calc) -> Double>(values: &Vec<Double>, length: usize, calc: &C) -> (r: Vec<
    Double,
>)
    requires
        calculates(*calc),
        length > 0,
    ensures
        r@.len() == values@.len(),
        forall|f: spec_fn(Calc) -> Double, i: int|
            #![trigger computes(*calc, f), r@[i]]
            computes(*calc, f) && 0 <= i < r@.len() ==> r@[i] == wma_of(
                f,
                window_at(values@, i, length as int),
            ),
{
    let mut out: Vec<Double> = Vec::new();
    let mut index: usize = 0;
    while index < values.len()
        invariant
            index <= values@.len(),
            calculates(*calc),
            length > 0,
            out@.len() == index,
            forall|f: spec_fn(Calc) -> Double, i: int|
                #![trigger computes(*calc, f), out@[i]]
                computes(*calc, f) && 0 <= i < out@.len() ==> out@[i] == wma_of(
                    f,
                    window_at(values@, i, length as int),
                ),
        decreases values@.len() - index,
    {
        let start: usize = start_of_window(index, length);
        out.push(weighted_mean(values, start, index + 1, calc));
        index += 1;
    }
    out
}

fn turnovers<C: Fn(Calc) -> Double>(candles: &Vec<Candle>, calc: &C) -> (r: Vec<Double>)
    requires
        calculates(*calc),
    ensures
        forall|f: spec_fn(Calc) -> Double| #[trigger]
            computes(*calc, f) ==> r@ == turnovers_of(f, candles@),
        r@.len() == candles@.len(),
{
    let mut out: Vec<Double> = Vec::new();
    let mut i: usize = 0;
    while i < candles.len()
        invariant
            i <= candles@.len(),
            calculates(*calc),
            out@.len() == i,
            forall|f: spec_fn(Calc) -> Double, j: int|
                #![trigger computes(*calc, f), out@[j]]
                computes(*calc, f) && 0 <= j < i ==> out@[j] == f(
                    Calc::Multiply(candles@[j].close, candles@[j].volume),
                ),
        decreases candles@.len() - i,
    {
        let turnover = calc(Calc::Multiply(candles[i].close, candles[i].volume));
        out.push(turnover);
        i += 1;
    }
    assert forall|f: spec_fn(Calc) -> Double| #[trigger] computes(*calc, f) implies out@
        == turnovers_of(f, candles@) by {
        assert forall|j: int| 0 <= j < out@.len() implies out@[j] == turnovers_of(
            f,
            candles@,
        )[j] by {}
        assert(out@ =~= turnovers_of(f, candles@));
    }
    out
}

fn vwma_values<C: Fn(Calc) -> Double>(candles: &Vec<Candle>, length: usize, calc: &C) -> (r: Vec<
    Double,
>)
    requires
        calculates(*calc),
        length > 0,
    ensures
        r@.len() == candles@.len(),
        forall|f: spec_fn(Calc) -> Double, i: int|
            #![trigger computes(*calc, f), r@[i]]
            computes(*calc, f) && 0 <= i < r@.len() ==> r@[i] == vwma_of(
                f,
                window_at(candles@, i, length as int),
            ),
{
    let volumes = volumes(candles);
    let closes = closes(candles);
    let turnovers = turnovers(candles, calc);
    let mut out: Vec<Double> = Vec::new();
    let mut index: usize = 0;
    while index < candles.len()
        invariant
            index <= candles@.len(),
            calculates(*calc),
            length > 0,
            volumes@ == volumes_of(candles@),
            closes@ == closes_of(candles@),
            turnovers@.len() == candles@.len(),
            forall|f: spec_fn(Calc) -> Double| #[trigger]
                computes(*calc, f) ==> turnovers@ == turnovers_of(f, candles@),
            out@.len() == index,
            forall|f: spec_fn(Calc) -> Double, i: int|
                #![trigger computes(*calc, f), out@[i]]
                computes(*calc, f) && 0 <= i < out@.len() ==> out@[i] == vwma_of(
                    f,
                    window_at(candles@, i, length as int),
                ),
        decreases candles@.len() - index,
    {
        let start: usize = start_of_window(index, length);
        let end: usize = index + 1;
        let ghost window = window_at(candles@, index as int, length as int);
        proof {
            assert(volumes@.subrange(start as int, end as int) =~= volumes_of(window));
            assert(closes@.subrange(start as int, end as int) =~= closes_of(window));
        }
        let volume_sum = total_range(&volumes, start, end, calc);
        let value = if volume_sum.equals(Double { bits: 0 }) {
            mean_range(&closes, start, end, calc)
        } else {
            let turnover_sum = total_range(&turnovers, start, end, calc);
            calc(Calc::Divide(turnover_sum, volume_sum))
        };
        assert forall|f: spec_fn(Calc) -> Double| #[trigger] computes(*calc, f) implies value
            == vwma_of(f, window) by {
            assert(turnovers@.subrange(start as int, end as int) =~= turnovers_of(f, window));
        }
        out.push(value);
        index += 1;
    }
    out
}

fn ma_values<C: Fn(Calc) -> Double>(
    candles: &Vec<Candle>,
    length: usize,
    ma_type: MaType,
    calc: &C,
) -> (r: Vec<Double>)
    requires
        calculates(*calc),
        length > 0,
    ensures
        r@.len() == candles@.len(),
        forall|f: spec_fn(Calc) -> Double, i: int|
            #![trigger computes(*calc, f), r@[i]]
            computes(*calc, f) && 0 <= i < r@.len() ==> r@[i] == ma_at(
                f,
                candles@,
                length,
                ma_type,
                i,
            ),
{
    match ma_type {
        MaType::Sma => sma_values(&closes(candles), length, calc),
        MaType::Ema => ema_values(&closes(candles), length, calc),
        MaType::Smma => rma_values(&closes(candles), length, calc),
        MaType::Wma => wma_values(&closes(candles), length, calc),
        MaType::Vwma => vwma_values(candles, length, calc),
    }
}

fn true_ranges<C: Fn(Calc) -> Double>(candles: &Vec<Candle>, calc: &C) -> (r: Vec<Double>)
    requires
        calculates(*calc),
    ensures
        r@.len() == candles@.len(),
        forall|f: spec_fn(Calc) -> Double| #[trigger]
            computes(*calc, f) ==> r@ == true_ranges_of(f, candles@),
{
    let mut out: Vec<Double> = Vec::new();
    let mut i: usize = 0;
    while i < candles.len()
        invariant
            i <= candles@.len(),
            calculates(*calc),
            out@.len() == i,
            forall|f: spec_fn(Calc) -> Double, j: int|
                #![trigger computes(*calc, f), out@[j]]
                computes(*calc, f) && 0 <= j < i ==> out@[j] == true_range_at(f, candles@, j),
        decreases candles@.len() - i,
    {
        let candle = candles[i];
        let range = calc(Calc::Subtract(candle.high, candle.low));
        if i == 0 {
            out.push(range);
        } else {
            let previous = candles[i - 1].close;
            let up = calc(Calc::Subtract(candle.high, previous));
            let up = calc(Calc::Absolute(up));
            let down = calc(Calc::Subtract(candle.low, previous));
            let down = calc(Calc::Absolute(down));
            out.push(range.max(up).max(down));
        }
        i += 1;
    }
    assert forall|f: spec_fn(Calc) -> Double| #[trigger] computes(*calc, f) implies out@
        == true_ranges_of(f, candles@) by {
        assert forall|j: int| 0 <= j < out@.len() implies out@[j] == true_ranges_of(
            f,
            candles@,
        )[j] by {}
        assert(out@ =~= true_ranges_of(f, candles@));
    }
    out
}

fn relative_ranges<C: Fn(Calc) -> Double>(
    candles: &Vec<Candle>,
    ranges: &Vec<Double>,
    length: usize,
    calc: &C,
) -> (r: Vec<Double>)
    requires
        calculates(*calc),
        ranges@.len() == candles@.len(),
        forall|f: spec_fn(Calc) -> Double| #[trigger]
            computes(*calc, f) ==> ranges@ == true_ranges_of(f, candles@),
    ensures
        r@.len() == candles@.len(),
        forall|f: spec_fn(Calc) -> Double| #[trigger]
            computes(*calc, f) ==> r@ == relative_ranges_of(f, candles@, length),
{
    let smooth = rma_values(ranges, length, calc);
    let two = calc(Calc::Count(2));
    let mut out: Vec<Double> = Vec::new();
    let mut i: usize = 0;
    while i < candles.len()
        invariant
            i <= candles@.len(),
            calculates(*calc),
            smooth@.len() == candles@.len(),
            ranges@.len() == candles@.len(),
            out@.len() == i,
            forall|f: spec_fn(Calc) -> Double| #[trigger]
                computes(*calc, f) ==> ranges@ == true_ranges_of(f, candles@) && two == f(
                    Calc::Count(2),
                ),
            forall|f: spec_fn(Calc) -> Double, j: int|
                #![trigger computes(*calc, f), smooth@[j]]
                computes(*calc, f) && 0 <= j < smooth@.len() ==> smooth@[j] == rma_at(
                    f,
                    ranges@,
                    length,
                    j,
                ),
            forall|f: spec_fn(Calc) -> Double, j: int|
                #![trigger computes(*calc, f), out@[j]]
                computes(*calc, f) && 0 <= j < i ==> out@[j] == relative_range_at(
                    f,
                    candles@,
                    length,
                    j,
                ),
        decreases candles@.len() - i,
    {
        let middle = calc(Calc::Add(candles[i].high, candles[i].low));
        let share = calc(Calc::Divide(smooth[i], middle));
        let value = calc(Calc::Multiply(share, two));
        out.push(value);
        i += 1;
    }
    assert forall|f: spec_fn(Calc) -> Double| #[trigger] computes(*calc, f) implies out@
        == relative_ranges_of(f, candles@, length) by {
        assert forall|j: int| 0 <= j < out@.len() implies out@[j] == relative_ranges_of(
            f,
            candles@,
            length,
        )[j] by {}
        assert(out@ =~= relative_ranges_of(f, candles@, length));
    }
    out
}

fn count_below(values: &Vec<Double>, start: usize, end: usize, value: Double) -> (r: usize)
    requires
        start <= end <= values@.len(),
    ensures
        r == count_at_most(values@.subrange(start as int, end as int), value),
{
    let ghost keep = |item: Double| item.le(value);
    let mut count: usize = 0;
    let mut i: usize = start;
    assert(values@.subrange(start as int, start as int).filter(keep) =~= Seq::<Double>::empty())
        by {
        reveal(Seq::filter);
    }
    while i < end
        invariant
            start <= i <= end <= values@.len(),
            count <= i - start,
            keep == (|item: Double| item.le(value)),
            count == values@.subrange(start as int, i as int).filter(keep).len(),
        decreases end - i,
    {
        assert(values@.subrange(start as int, i + 1).drop_last() =~= values@.subrange(
            start as int,
            i as int,
        ));
        proof {
            reveal(Seq::filter);
        }
        if values[i].at_most(value) {
            count += 1;
        }
        i += 1;
    }
    count
}

fn percent_ranks<C: Fn(Calc) -> Double>(values: &Vec<Double>, length: usize, calc: &C) -> (r: Vec<
    Option<Double>,
>)
    requires
        calculates(*calc),
        length > 0,
    ensures
        r@.len() == values@.len(),
        forall|f: spec_fn(Calc) -> Double, i: int|
            #![trigger computes(*calc, f), r@[i]]
            computes(*calc, f) && 0 <= i < r@.len() ==> r@[i] == rank_at(f, values@, length, i),
{
    let one = calc(Calc::Count(1));
    let hundred = calc(Calc::Count(100));
    let count = calc(Calc::Count(length));
    let others = calc(Calc::Subtract(count, one));
    let mut out: Vec<Option<Double>> = Vec::new();
    let mut index: usize = 0;
    while index < values.len()
        invariant
            index <= values@.len(),
            calculates(*calc),
            length > 0,
            forall|f: spec_fn(Calc) -> Double| #[trigger]
                computes(*calc, f) ==> one == f(Calc::Count(1)) && hundred == f(Calc::Count(100))
                    && others == f(Calc::Subtract(f(Calc::Count(length)), f(Calc::Count(1)))),
            out@.len() == index,
            forall|f: spec_fn(Calc) -> Double, i: int|
                #![trigger computes(*calc, f), out@[i]]
                computes(*calc, f) && 0 <= i < out@.len() ==> out@[i] == rank_at(
                    f,
                    values@,
                    length,
                    i,
                ),
        decreases values@.len() - index,
    {
        if index + 1 < length {
            out.push(None);
        } else {
            let start: usize = index + 1 - length;
            let below: usize = count_below(values, start, index + 1, values[index]);
            let number = calc(Calc::Count(below));
            let less = calc(Calc::Subtract(number, one));
            let share = calc(Calc::Divide(less, others));
            let rank = calc(Calc::Multiply(share, hundred));
            out.push(Some(rank));
        }
        index += 1;
    }
    out
}

/// The deviation of each candle from the moving average. `calc` does the
/// arithmetic; `whole` cuts a number to a whole one.
pub fn compute_guaili<C: Fn(Calc) -> Double, W: Fn(Double) -> i32>(
    candles: &Vec<Candle>,
    config: GuailiConfig,
    calc: &C,
    whole: &W,
) -> (r: Vec<GuailiPoint>)
    requires
        calculates(*calc),
        rounds(*whole),
    ensures
        r@.len() == candles@.len(),
        forall|f: spec_fn(Calc) -> Double, g: spec_fn(Double) -> i32|
            #![trigger computes(*calc, f), computes_whole(*whole, g)]
            computes(*calc, f) && computes_whole(*whole, g) ==> r@ == points_of(
                f,
                g,
                candles@,
                config,
            ),
{
    let ma_length: usize = if config.ma_length < 1 {
        1
    } else {
        config.ma_length
    };
    let atr_len: usize = if config.atr_len < 1 {
        1
    } else {
        config.atr_len
    };
    let rank_len: usize = if config.atr_percent_len < 1 {
        1
    } else {
        config.atr_percent_len
    };
    let averages = ma_values(candles, ma_length, config.ma_type, calc);
    let true_ranges = true_ranges(candles, calc);
    let ranges = rma_values(&true_ranges, 14, calc);
    let relative = relative_ranges(candles, &true_ranges, atr_len, calc);
    let ranks = percent_ranks(&relative, rank_len, calc);
    proof {
        assert forall|f: spec_fn(Calc) -> Double| #[trigger] computes(*calc, f) implies averages@
            == averages_of(f, candles@, config) && ranges@ == ranges_of(f, candles@) && ranks@
            == ranks_of(f, candles@, config) by {
            assert forall|i: int| 0 <= i < candles@.len() implies averages@[i] == averages_of(
                f,
                candles@,
                config,
            )[i] by {}
            assert(averages@ =~= averages_of(f, candles@, config));
            assert forall|i: int| 0 <= i < candles@.len() implies ranges@[i] == ranges_of(
                f,
                candles@,
            )[i] by {}
            assert(ranges@ =~= ranges_of(f, candles@));
            assert forall|i: int| 0 <= i < candles@.len() implies ranks@[i] == ranks_of(
                f,
                candles@,
                config,
            )[i] by {}
            assert(ranks@ =~= ranks_of(f, candles@, config));
        }
    }
    let mut points: Vec<GuailiPoint> = Vec::new();
    let mut index: usize = 0;
    while index < candles.len()
        invariant
            index <= candles@.len(),
            calculates(*calc),
            rounds(*whole),
            averages@.len() == candles@.len(),
            ranges@.len() == candles@.len(),
            ranks@.len() == candles@.len(),
            points@.len() == index,
            forall|f: spec_fn(Calc) -> Double, g: spec_fn(Double) -> i32, i: int|
                #![trigger computes(*calc, f), computes_whole(*whole, g), points@[i]]
                computes(*calc, f) && computes_whole(*whole, g) && 0 <= i < index ==> points@[i]
                    == point_at(f, g, candles@, averages@, ranges@, ranks@, config, i),
        decreases candles@.len() - index,
    {
        let point = make_point(candles, &averages, &ranges, &ranks, config, index, calc, whole);
        points.push(point);
        index += 1;
    }
    proof {
        assert forall|f: spec_fn(Calc) -> Double, g: spec_fn(Double) -> i32|
            #![trigger computes(*calc, f), computes_whole(*whole, g)]
            computes(*calc, f) && computes_whole(*whole, g) implies points@ == points_of(
            f,
            g,
            candles@,
            config,
        ) by {
            assert forall|i: int| 0 <= i < points@.len() implies points@[i] == points_of(
                f,
                g,
                candles@,
                config,
            )[i] by {}
            assert(points@ =~= points_of(f, g, candles@, config));
        }
    }
    points
}

fn make_deviation<C: Fn(Calc) -> Double>(
    candle: Candle,
    ma: Double,
    range: Double,
    calc: &C,
) -> (r: Double)
    requires
        calculates(*calc),
    ensures
        forall|f: spec_fn(Calc) -> Double| #[trigger]
            computes(*calc, f) ==> r == deviation(f, candle, ma, range),
{
    let flat = range.equals(Double { bits: 0 });
    if ma.less_than(candle.low) && ma.less_than(candle.high) && !flat {
        let distance = calc(Calc::Subtract(candle.low, ma));
        calc(Calc::Divide(distance, range))
    } else if candle.high.less_than(ma) && candle.low.less_than(ma) && !flat {
        let distance = calc(Calc::Subtract(ma, candle.high));
        let share = calc(Calc::Divide(distance, range));
        calc(Calc::Negate(share))
    } else {
        Double { bits: 0 }
    }
}

fn make_point<C: Fn(Calc) -> Double, W: Fn(Double) -> i32>(
    candles: &Vec<Candle>,
    averages: &Vec<Double>,
    ranges: &Vec<Double>,
    ranks: &Vec<Option<Double>>,
    config: GuailiConfig,
    index: usize,
    calc: &C,
    whole: &W,
) -> (r: GuailiPoint)
    requires
        calculates(*calc),
        rounds(*whole),
        index < candles@.len(),
        averages@.len() == candles@.len(),
        ranges@.len() == candles@.len(),
        ranks@.len() == candles@.len(),
    ensures
        forall|f: spec_fn(Calc) -> Double, g: spec_fn(Double) -> i32|
            #![trigger computes(*calc, f), computes_whole(*whole, g)]
            computes(*calc, f) && computes_whole(*whole, g) ==> r == point_at(
                f,
                g,
                candles@,
                averages@,
                ranges@,
                ranks@,
                config,
                index as int,
            ),
{
    let candle = candles[index];
    let ma = averages[index];
    let range = ranges[index];
    let before = if index > 0 {
        ranges[index - 1]
    } else {
        range
    };
    let guaili = make_deviation(candle, ma, before, calc);
    let up = index >= 3 && averages[index - 1].less_than(ma) && averages[index - 2].less_than(
        averages[index - 1],
    ) && averages[index - 3].less_than(averages[index - 2]);
    let down = index >= 3 && ma.less_than(averages[index - 1]) && averages[index - 1].less_than(
        averages[index - 2],
    ) && averages[index - 2].less_than(averages[index - 3]);
    let slope = if index >= 3 {
        let distance = calc(Calc::Subtract(ma, averages[index - 3]));
        calc(Calc::Absolute(distance))
    } else {
        Double { bits: 0 }
    };
    let least = calc(Calc::Multiply(range, config.slope_mul));
    let slope_ok = !config.use_slope || least.less_than(slope);
    let rank_filter = match ranks[index] {
        Some(rank) => rank.at_most(config.max_atr_rank),
        None => false,
    };
    let ten = calc(Calc::Count(10));
    let scaled = calc(Calc::Multiply(guaili, ten));
    let value: i32 = whole(scaled);
    GuailiPoint {
        open_time: candle.open_time,
        close_time: candle.close_time,
        ma,
        atr14: range,
        atr_rank: ranks[index],
        rank_filter,
        guaili,
        value,
        long_trend: up && slope_ok,
        short_trend: down && slope_ok,
        is_closed: candle.is_closed,
    }
}

// ---------------------------------------------------------------------------
// Laws.
// ---------------------------------------------------------------------------

/// No point is in an upward and a downward trend at once.
pub proof fn trends_exclude_each_other(
    f: spec_fn(Calc) -> Double,
    g: spec_fn(Double) -> i32,
    candles: Seq<Candle>,
    config: GuailiConfig,
    i: int,
)
    requires
        0 <= i < candles.len(),
    ensures
        !(points_of(f, g, candles, config)[i].long_trend && points_of(
            f,
            g,
            candles,
            config,
        )[i].short_trend),
{
}

/// The first three points have no trend.
pub proof fn trends_need_history(
    f: spec_fn(Calc) -> Double,
    g: spec_fn(Double) -> i32,
    candles: Seq<Candle>,
    config: GuailiConfig,
    i: int,
)
    requires
        0 <= i < candles.len(),
        i < 3,
    ensures
        !points_of(f, g, candles, config)[i].long_trend,
        !points_of(f, g, candles, config)[i].short_trend,
{
}

/// Points have a rank from the candle on at which the window is full.
pub proof fn ranks_need_a_full_window(
    f: spec_fn(Calc) -> Double,
    g: spec_fn(Double) -> i32,
    candles: Seq<Candle>,
    config: GuailiConfig,
    i: int,
)
    requires
        0 <= i < candles.len(),
    ensures
        points_of(f, g, candles, config)[i].atr_rank is Some <==> i + 1 >= at_least(
            config.atr_percent_len,
            1,
        ),
        points_of(f, g, candles, config)[i].rank_filter ==> points_of(
            f,
            g,
            candles,
            config,
        )[i].atr_rank is Some,
{
}

proof fn ema_of_prefix(
    f: spec_fn(Calc) -> Double,
    values: Seq<Double>,
    length: usize,
    n: int,
    i: int,
)
    requires
        0 <= i < n <= values.len(),
    ensures
        ema_at(f, values.take(n), length, i) == ema_at(f, values, length, i),
    decreases i,
{
    if i > 0 {
        ema_of_prefix(f, values, length, n, i - 1);
    }
}

proof fn rma_of_prefix(
    f: spec_fn(Calc) -> Double,
    values: Seq<Double>,
    length: usize,
    n: int,
    i: int,
)
    requires
        0 <= i < n <= values.len(),
    ensures
        rma_at(f, values.take(n), length, i) == rma_at(f, values, length, i),
    decreases i,
{
    if i > 0 {
        rma_of_prefix(f, values, length, n, i - 1);
    }
}

proof fn averages_of_prefix(
    f: spec_fn(Calc) -> Double,
    candles: Seq<Candle>,
    config: GuailiConfig,
    n: int,
)
    requires
        0 <= n <= candles.len(),
    ensures
        averages_of(f, candles.take(n), config) == averages_of(f, candles, config).take(n),
{
    let length = at_least(config.ma_length, 1);
    let part = candles.take(n);
    assert(closes_of(part) =~= closes_of(candles).take(n));
    assert forall|i: int| 0 <= i < n implies ma_at(f, part, length, config.ma_type, i) == ma_at(
        f,
        candles,
        length,
        config.ma_type,
        i,
    ) by {
        assert(window_at(closes_of(part), i, length as int) =~= window_at(
            closes_of(candles),
            i,
            length as int,
        ));
        assert(window_at(part, i, length as int) =~= window_at(candles, i, length as int));
        ema_of_prefix(f, closes_of(candles), length, n, i);
        rma_of_prefix(f, closes_of(candles), length, n, i);
    }
    assert(averages_of(f, part, config) =~= averages_of(f, candles, config).take(n));
}

proof fn ranges_of_prefix(
    f: spec_fn(Calc) -> Double,
    candles: Seq<Candle>,
    config: GuailiConfig,
    n: int,
)
    requires
        0 <= n <= candles.len(),
    ensures
        ranges_of(f, candles.take(n)) == ranges_of(f, candles).take(n),
        ranks_of(f, candles.take(n), config) == ranks_of(f, candles, config).take(n),
{
    let part = candles.take(n);
    let ranges = true_ranges_of(f, candles);
    assert(true_ranges_of(f, part) =~= ranges.take(n));
    let length = at_least(config.atr_len, 1);
    let rank_length = at_least(config.atr_percent_len, 1);
    assert forall|i: int| 0 <= i < n implies rma_at(f, ranges.take(n), 14, i) == rma_at(
        f,
        ranges,
        14,
        i,
    ) && rma_at(f, ranges.take(n), length, i) == rma_at(f, ranges, length, i) by {
        rma_of_prefix(f, ranges, 14, n, i);
        rma_of_prefix(f, ranges, length, n, i);
    }
    assert(ranges_of(f, part) =~= ranges_of(f, candles).take(n));
    let relative = relative_ranges_of(f, candles, length);
    assert(relative_ranges_of(f, part, length) =~= relative.take(n));
    assert forall|i: int| 0 <= i < n implies rank_at(f, relative.take(n), rank_length, i)
        == rank_at(f, relative, rank_length, i) by {
        assert(window_at(relative.take(n), i, rank_length as int) =~= window_at(
            relative,
            i,
            rank_length as int,
        ));
    }
    assert(ranks_of(f, part, config) =~= ranks_of(f, candles, config).take(n));
}

/// A point never depends on later candles: the points of the first candles are
/// the first of the points.
#[verifier::spinoff_prover]
#[verifier::rlimit(80)]
pub proof fn points_do_not_look_ahead(
    f: spec_fn(Calc) -> Double,
    g: spec_fn(Double) -> i32,
    candles: Seq<Candle>,
    config: GuailiConfig,
    n: int,
)
    requires
        0 <= n <= candles.len(),
    ensures
        points_of(f, g, candles.take(n), config) == points_of(f, g, candles, config).take(n),
{
    averages_of_prefix(f, candles, config, n);
    ranges_of_prefix(f, candles, config, n);
    let part = points_of(f, g, candles.take(n), config);
    let whole = points_of(f, g, candles, config);
    assert forall|i: int| 0 <= i < n implies #[trigger] part[i] == whole[i] by {
        assert(candles.take(n)[i] == candles[i]);
    }
    assert(part =~= whole.take(n));
}

/// There is one point for each candle, in the same order and at its times.
pub proof fn points_follow_the_candles(
    f: spec_fn(Calc) -> Double,
    g: spec_fn(Double) -> i32,
    candles: Seq<Candle>,
    config: GuailiConfig,
)
    ensures
        points_of(f, g, candles, config).len() == candles.len(),
        forall|i: int|
            0 <= i < candles.len() ==> {
                let point = #[trigger] points_of(f, g, candles, config)[i];
                &&& point.open_time == candles[i].open_time
                &&& point.close_time == candles[i].close_time
                &&& point.is_closed == candles[i].is_closed
            },
{
}

// ---------------------------------------------------------------------------
// What the numbers of a point are, told by the candles and by the points
// themselves.
// ---------------------------------------------------------------------------

/// `sums` are the sums in turn of `steps`, from `start` on.
pub open spec fn summing(
    f: spec_fn(Calc) -> Double,
    start: Double,
    steps: Seq<Double>,
    sums: Seq<Double>,
) -> bool {
    &&& sums.len() == steps.len() + 1
    &&& sums[0] == start
    &&& forall|k: int, m: int|
        0 <= k && m == k + 1 && m < sums.len() ==> #[trigger] sums[m] == f(
            Calc::Add(#[trigger] sums[k], steps[k]),
        )
}

proof fn total_is_a_sum(f: spec_fn(Calc) -> Double, values: Seq<Double>) -> (sums: Seq<Double>)
    ensures
        summing(f, f(Calc::Start), values, sums),
        sums.last() == total(f, values),
    decreases values.len(),
{
    if values.len() == 0 {
        seq![f(Calc::Start)]
    } else {
        let earlier = total_is_a_sum(f, values.drop_last());
        earlier.push(total(f, values))
    }
}

proof fn weighted_total_is_a_sum(f: spec_fn(Calc) -> Double, values: Seq<Double>) -> (sums: Seq<
    Double,
>)
    requires
        values.len() <= usize::MAX,
    ensures
        summing(
            f,
            Double { bits: 0 },
            Seq::new(
                values.len(),
                |k: int| f(Calc::Multiply(values[k], f(Calc::Count((k + 1) as usize)))),
            ),
            sums,
        ),
        sums.last() == weighted_total(f, values),
    decreases values.len(),
{
    if values.len() == 0 {
        seq![Double { bits: 0 }]
    } else {
        let earlier = weighted_total_is_a_sum(f, values.drop_last());
        let sums = earlier.push(weighted_total(f, values));
        let steps = Seq::new(
            values.len(),
            |k: int| f(Calc::Multiply(values[k], f(Calc::Count((k + 1) as usize)))),
        );
        assert forall|k: int, m: int| 0 <= k && m == k + 1 && m < sums.len() implies #[trigger] sums[m]
            == f(Calc::Add(#[trigger] sums[k], steps[k])) by {
            if m < earlier.len() {
                assert(earlier[m] == sums[m]);
                assert(earlier[k] == sums[k]);
                assert(values.drop_last()[k] == values[k]);
            }
        }
        sums
    }
}

proof fn weight_total_is_a_sum(f: spec_fn(Calc) -> Double, n: nat) -> (sums: Seq<Double>)
    ensures
        summing(
            f,
            Double { bits: 0 },
            Seq::new(n, |k: int| f(Calc::Count((k + 1) as usize))),
            sums,
        ),
        sums.last() == weight_total(f, n),
    decreases n,
{
    if n == 0 {
        seq![Double { bits: 0 }]
    } else {
        let earlier = weight_total_is_a_sum(f, (n - 1) as nat);
        let sums = earlier.push(weight_total(f, n));
        let steps = Seq::new(n, |k: int| f(Calc::Count((k + 1) as usize)));
        assert forall|k: int, m: int| 0 <= k && m == k + 1 && m < sums.len() implies #[trigger] sums[m]
            == f(Calc::Add(#[trigger] sums[k], steps[k])) by {
            if m < earlier.len() {
                assert(earlier[m] == sums[m]);
                assert(earlier[k] == sums[k]);
            }
        }
        sums
    }
}

/// `last` is the sum of `steps` from `start` on.
pub open spec fn sums_up(
    f: spec_fn(Calc) -> Double,
    start: Double,
    steps: Seq<Double>,
    last: Double,
) -> bool {
    exists|sums: Seq<Double>| #[trigger] summing(f, start, steps, sums) && last == sums.last()
}

/// `mean` is the sum of the numbers over how many they are.
pub open spec fn is_mean(f: spec_fn(Calc) -> Double, numbers: Seq<Double>, mean: Double) -> bool {
    exists|sum: Double| #[trigger]
        sums_up(f, f(Calc::Start), numbers, sum) && mean == f(
            Calc::Divide(sum, f(Calc::Count(numbers.len() as usize))),
        )
}

/// `n` is how many of the candles up to number `i` an average of `length`
/// takes: `length` of them, or all where there are not so many.
pub open spec fn taken(n: int, i: int, length: int) -> bool {
    n == length && length <= i + 1 || n == i + 1 && i + 1 < length
}

/// A simple average is the mean of the last closing prices, `ma_length` of
/// them as soon as there are so many.
pub proof fn simple_averages_are_means(
    f: spec_fn(Calc) -> Double,
    g: spec_fn(Double) -> i32,
    candles: Seq<Candle>,
    config: GuailiConfig,
    i: int,
    n: int,
)
    requires
        0 <= i < candles.len(),
        config.ma_type == MaType::Sma,
        config.ma_length >= 1,
        taken(n, i, config.ma_length as int),
    ensures
        is_mean(
            f,
            Seq::new(n as nat, |k: int| candles[i + 1 - n + k].close),
            points_of(f, g, candles, config)[i].ma,
        ),
{
    let numbers = Seq::new(n as nat, |k: int| candles[i + 1 - n + k].close);
    assert(window_at(closes_of(candles), i, config.ma_length as int) =~= numbers);
    let sums = total_is_a_sum(f, numbers);
    assert(sums_up(f, f(Calc::Start), numbers, total(f, numbers)));
}

/// `average` is the sum of the numbers, each times its number from one on,
/// over the sum of those weights.
pub open spec fn is_weighted_mean(
    f: spec_fn(Calc) -> Double,
    numbers: Seq<Double>,
    average: Double,
) -> bool {
    exists|above: Double, below: Double|
        #![trigger f(Calc::Divide(above, below))]
        {
            &&& sums_up(
                f,
                Double { bits: 0 },
                Seq::new(
                    numbers.len(),
                    |k: int| f(Calc::Multiply(numbers[k], f(Calc::Count((k + 1) as usize)))),
                ),
                above,
            )
            &&& sums_up(
                f,
                Double { bits: 0 },
                Seq::new(numbers.len(), |k: int| f(Calc::Count((k + 1) as usize))),
                below,
            )
            &&& average == f(Calc::Divide(above, below))
        }
}

/// A weighted average counts the last closing prices, the newest most.
pub proof fn weighted_averages_count_the_newest_most(
    f: spec_fn(Calc) -> Double,
    g: spec_fn(Double) -> i32,
    candles: Seq<Candle>,
    config: GuailiConfig,
    i: int,
    n: int,
)
    requires
        0 <= i < candles.len() <= usize::MAX,
        config.ma_type == MaType::Wma,
        config.ma_length >= 1,
        taken(n, i, config.ma_length as int),
    ensures
        is_weighted_mean(
            f,
            Seq::new(n as nat, |k: int| candles[i + 1 - n + k].close),
            points_of(f, g, candles, config)[i].ma,
        ),
{
    let numbers = Seq::new(n as nat, |k: int| candles[i + 1 - n + k].close);
    assert(window_at(closes_of(candles), i, config.ma_length as int) =~= numbers);
    let a = weighted_total_is_a_sum(f, numbers);
    let b = weight_total_is_a_sum(f, numbers.len());
    let above = weighted_total(f, numbers);
    let below = weight_total(f, numbers.len());
    assert(points_of(f, g, candles, config)[i].ma == f(Calc::Divide(above, below)));
}

/// An average by volume is the turnover of the last candles over their volume,
/// and the plain mean of their closing prices where there was no volume.
pub proof fn averages_by_volume_divide_turnover_by_volume(
    f: spec_fn(Calc) -> Double,
    g: spec_fn(Double) -> i32,
    candles: Seq<Candle>,
    config: GuailiConfig,
    i: int,
    n: int,
    turnover: Double,
    volume: Double,
)
    requires
        0 <= i < candles.len(),
        config.ma_type == MaType::Vwma,
        config.ma_length >= 1,
        taken(n, i, config.ma_length as int),
        sums_up(
            f,
            f(Calc::Start),
            Seq::new(n as nat, |k: int| candles[i + 1 - n + k].volume),
            volume,
        ),
        sums_up(
            f,
            f(Calc::Start),
            Seq::new(
                n as nat,
                |k: int|
                    f(Calc::Multiply(candles[i + 1 - n + k].close, candles[i + 1 - n + k].volume)),
            ),
            turnover,
        ),
    ensures
        !volume.same(Double { bits: 0 }) ==> points_of(f, g, candles, config)[i].ma == f(
            Calc::Divide(turnover, volume),
        ),
        volume.same(Double { bits: 0 }) ==> is_mean(
            f,
            Seq::new(n as nat, |k: int| candles[i + 1 - n + k].close),
            points_of(f, g, candles, config)[i].ma,
        ),
{
    let window = window_at(candles, i, config.ma_length as int);
    let volumes = Seq::new(n as nat, |k: int| candles[i + 1 - n + k].volume);
    let closes = Seq::new(n as nat, |k: int| candles[i + 1 - n + k].close);
    let turnovers = Seq::new(
        n as nat,
        |k: int| f(Calc::Multiply(candles[i + 1 - n + k].close, candles[i + 1 - n + k].volume)),
    );
    assert(volumes_of(window) =~= volumes);
    assert(closes_of(window) =~= closes);
    assert(turnovers_of(f, window) =~= turnovers);
    sums_are_determined(f, f(Calc::Start), volumes, volume, total(f, volumes));
    sums_are_determined(f, f(Calc::Start), turnovers, turnover, total(f, turnovers));
    let sums = total_is_a_sum(f, closes);
    assert(sums_up(f, f(Calc::Start), closes, total(f, closes)));
}

proof fn sums_are_determined(
    f: spec_fn(Calc) -> Double,
    start: Double,
    steps: Seq<Double>,
    a: Double,
    b: Double,
)
    requires
        start == f(Calc::Start),
        sums_up(f, start, steps, a),
        b == total(f, steps),
    ensures
        a == b,
{
    let sums = choose|sums: Seq<Double>| #[trigger]
        summing(f, start, steps, sums) && a == sums.last();
    partial_sum(f, steps, sums, steps.len() as int);
    assert(steps.take(steps.len() as int) =~= steps);
}

proof fn partial_sum(f: spec_fn(Calc) -> Double, steps: Seq<Double>, sums: Seq<Double>, n: int)
    requires
        summing(f, f(Calc::Start), steps, sums),
        0 <= n <= steps.len(),
    ensures
        sums[n] == total(f, steps.take(n)),
    decreases n,
{
    if n > 0 {
        partial_sum(f, steps, sums, n - 1);
        assert(steps.take(n).drop_last() =~= steps.take(n - 1));
        assert(sums[n] == f(Calc::Add(sums[n - 1], steps[n - 1])));
    }
}

/// An exponential average starts with the first closing price and then lies
/// between the average before and the new closing price, which counts for two
/// in `ma_length` and one.
pub proof fn exponential_averages_move_towards_the_price(
    f: spec_fn(Calc) -> Double,
    g: spec_fn(Double) -> i32,
    candles: Seq<Candle>,
    config: GuailiConfig,
    i: int,
)
    requires
        0 <= i < candles.len(),
        config.ma_type == MaType::Ema,
        config.ma_length >= 1,
    ensures
        i == 0 ==> points_of(f, g, candles, config)[i].ma == candles[0].close,
        i > 0 ==> ({
            let weight = f(
                Calc::Divide(
                    f(Calc::Count(2)),
                    f(Calc::Add(f(Calc::Count(config.ma_length)), f(Calc::Count(1)))),
                ),
            );
            points_of(f, g, candles, config)[i].ma == f(
                Calc::Add(
                    f(Calc::Multiply(weight, candles[i].close)),
                    f(
                        Calc::Multiply(
                            f(Calc::Subtract(f(Calc::Count(1)), weight)),
                            points_of(f, g, candles, config)[i - 1].ma,
                        ),
                    ),
                ),
            )
        }),
{
}

/// `next` is one step of smoothing from `before` with a new number, which
/// counts for one in `length`.
pub open spec fn smoothed_step(
    f: spec_fn(Calc) -> Double,
    length: usize,
    before: Double,
    number: Double,
    next: Double,
) -> bool {
    next == f(
        Calc::Divide(
            f(
                Calc::Add(
                    f(
                        Calc::Multiply(
                            before,
                            f(Calc::Subtract(f(Calc::Count(length)), f(Calc::Count(1)))),
                        ),
                    ),
                    number,
                ),
            ),
            f(Calc::Count(length)),
        ),
    )
}

/// A smoothed average starts with the first closing price; each next one counts
/// for one in `ma_length`.
pub proof fn smoothed_averages_take_in_one_price_at_a_time(
    f: spec_fn(Calc) -> Double,
    g: spec_fn(Double) -> i32,
    candles: Seq<Candle>,
    config: GuailiConfig,
    i: int,
)
    requires
        0 <= i < candles.len(),
        config.ma_type == MaType::Smma,
        config.ma_length >= 1,
    ensures
        i == 0 ==> points_of(f, g, candles, config)[i].ma == candles[0].close,
        i > 0 ==> smoothed_step(
            f,
            config.ma_length,
            points_of(f, g, candles, config)[i - 1].ma,
            candles[i].close,
            points_of(f, g, candles, config)[i].ma,
        ),
{
}

/// `range` is the true range of candle number `i`: how far it reaches, or, from
/// the second on, the largest of that and of how far its ends are from the
/// close before.
pub open spec fn is_true_range(
    f: spec_fn(Calc) -> Double,
    candles: Seq<Candle>,
    i: int,
    range: Double,
) -> bool {
    let reach = f(Calc::Subtract(candles[i].high, candles[i].low));
    if i == 0 {
        range == reach
    } else {
        let up = f(Calc::Absolute(f(Calc::Subtract(candles[i].high, candles[i - 1].close))));
        let down = f(Calc::Absolute(f(Calc::Subtract(candles[i].low, candles[i - 1].close))));
        &&& range == reach || range == up || range == down
        &&& !range.lt(reach) && !range.lt(up) && !range.lt(down)
        &&& range.nan() ==> reach.nan() && up.nan() && down.nan()
    }
}

/// `smooth` are true ranges of the candles, smoothed over `length`.
pub open spec fn are_smoothed_ranges(
    f: spec_fn(Calc) -> Double,
    candles: Seq<Candle>,
    length: usize,
    ranges: Seq<Double>,
    smooth: Seq<Double>,
) -> bool {
    &&& ranges.len() == candles.len()
    &&& smooth.len() == candles.len()
    &&& forall|i: int| 0 <= i < candles.len() ==> is_true_range(f, candles, i, #[trigger] ranges[i])
    &&& candles.len() > 0 ==> smooth[0] == ranges[0]
    &&& forall|i: int, j: int|
        0 <= i && j == i + 1 && j < smooth.len() ==> smoothed_step(
            f,
            length,
            #[trigger] smooth[i],
            ranges[j],
            #[trigger] smooth[j],
        )
}

proof fn ranges_are_smoothed(f: spec_fn(Calc) -> Double, candles: Seq<Candle>, length: usize)
    ensures
        are_smoothed_ranges(
            f,
            candles,
            length,
            true_ranges_of(f, candles),
            Seq::new(candles.len(), |i: int| rma_at(f, true_ranges_of(f, candles), length, i)),
        ),
{
    let ranges = true_ranges_of(f, candles);
    let smooth = Seq::new(candles.len(), |i: int| rma_at(f, ranges, length, i));
    assert forall|i: int| 0 <= i < candles.len() implies is_true_range(
        f,
        candles,
        i,
        #[trigger] ranges[i],
    ) by {
        assert(ranges[i] == true_range_at(f, candles, i));
    }
}

/// The average ranges of the points are true ranges, smoothed over fourteen.
pub proof fn average_ranges_smooth_the_true_ranges(
    f: spec_fn(Calc) -> Double,
    g: spec_fn(Double) -> i32,
    candles: Seq<Candle>,
    config: GuailiConfig,
    smooth: Seq<Double>,
)
    requires
        smooth.len() == candles.len(),
        forall|i: int|
            0 <= i < candles.len() ==> #[trigger] smooth[i] == points_of(
                f,
                g,
                candles,
                config,
            )[i].atr14,
    ensures
        exists|ranges: Seq<Double>| #[trigger]
            are_smoothed_ranges(f, candles, 14, ranges, smooth),
{
    ranges_are_smoothed(f, candles, 14);
    let ranges = true_ranges_of(f, candles);
    assert(smooth =~= Seq::new(candles.len(), |i: int| rma_at(f, ranges, 14, i)));
}

/// `relative` are the true ranges, smoothed over `atr_len`, against the middle
/// of their candles.
pub open spec fn are_relative_ranges(
    f: spec_fn(Calc) -> Double,
    candles: Seq<Candle>,
    length: usize,
    relative: Seq<Double>,
) -> bool {
    exists|ranges: Seq<Double>, smooth: Seq<Double>| #[trigger]
        are_smoothed_ranges(f, candles, length, ranges, smooth) && relative == Seq::new(
            candles.len(),
            |i: int|
                f(
                    Calc::Multiply(
                        f(
                            Calc::Divide(
                                smooth[i],
                                f(Calc::Add(candles[i].high, candles[i].low)),
                            ),
                        ),
                        f(Calc::Count(2)),
                    ),
                ),
        )
}

proof fn relative_ranges_are_told(f: spec_fn(Calc) -> Double, candles: Seq<Candle>, length: usize)
    ensures
        are_relative_ranges(f, candles, length, relative_ranges_of(f, candles, length)),
{
    ranges_are_smoothed(f, candles, length);
    let ranges = true_ranges_of(f, candles);
    let smooth = Seq::new(candles.len(), |i: int| rma_at(f, ranges, length, i));
    assert(relative_ranges_of(f, candles, length) =~= Seq::new(
        candles.len(),
        |i: int|
            f(
                Calc::Multiply(
                    f(Calc::Divide(smooth[i], f(Calc::Add(candles[i].high, candles[i].low)))),
                    f(Calc::Count(2)),
                ),
            ),
    ));
}

/// The places, from `from` up to `to`, of numbers that are at most `most`.
pub open spec fn places_at_most(values: Seq<Double>, from: int, to: int, most: Double) -> Set<int> {
    Set::new(|k: int| from <= k < to && values[k].le(most))
}

proof fn filter_counts_places(values: Seq<Double>, from: int, to: int, most: Double)
    requires
        0 <= from <= to <= values.len(),
    ensures
        places_at_most(values, from, to, most).finite(),
        places_at_most(values, from, to, most).len() <= to - from,
        count_at_most(values.subrange(from, to), most) == places_at_most(
            values,
            from,
            to,
            most,
        ).len(),
    decreases to - from,
{
    reveal(Seq::filter);
    let places = places_at_most(values, from, to, most);
    if from == to {
        assert(places =~= Set::<int>::empty());
    } else {
        filter_counts_places(values, from, to - 1, most);
        let fewer = places_at_most(values, from, to - 1, most);
        assert(values.subrange(from, to).drop_last() =~= values.subrange(from, to - 1));
        assert(values.subrange(from, to).last() == values[to - 1]);
        if values[to - 1].le(most) {
            assert(places =~= fewer.insert(to - 1));
            assert(!fewer.contains(to - 1));
        } else {
            assert(places =~= fewer);
        }
    }
}

/// The rank of a point says how many of the last `atr_percent_len` relative
/// ranges, its own with them, are at most its own: that count less one, over
/// one less than the length, in percent. So the count lies between nought and
/// the length, and it is at least one where the range is a number.
pub proof fn ranks_count_the_last_ranges(
    f: spec_fn(Calc) -> Double,
    g: spec_fn(Double) -> i32,
    candles: Seq<Candle>,
    config: GuailiConfig,
    i: int,
)
    requires
        0 <= i < candles.len() <= usize::MAX,
        config.atr_len >= 1,
        1 <= config.atr_percent_len <= i + 1,
    ensures
        exists|relative: Seq<Double>| #[trigger]
            are_relative_ranges(f, candles, config.atr_len, relative) && ({
                let length = config.atr_percent_len;
                let places = places_at_most(relative, i + 1 - length, i + 1, relative[i]);
                let count = places.len();
                &&& places.finite()
                &&& 0 <= count <= length
                &&& !relative[i].nan() ==> 1 <= count
                &&& points_of(f, g, candles, config)[i].atr_rank == Some(
                    f(
                        Calc::Multiply(
                            f(
                                Calc::Divide(
                                    f(
                                        Calc::Subtract(
                                            f(Calc::Count(count as usize)),
                                            f(Calc::Count(1)),
                                        ),
                                    ),
                                    f(Calc::Subtract(f(Calc::Count(length)), f(Calc::Count(1)))),
                                ),
                            ),
                            f(Calc::Count(100)),
                        ),
                    ),
                )
            }),
{
    let relative = relative_ranges_of(f, candles, config.atr_len);
    relative_ranges_are_told(f, candles, config.atr_len);
    let length = config.atr_percent_len as int;
    filter_counts_places(relative, i + 1 - length, i + 1, relative[i]);
    assert(window_at(relative, i, length) =~= relative.subrange(i + 1 - length, i + 1));
    let places = places_at_most(relative, i + 1 - length, i + 1, relative[i]);
    if !relative[i].nan() {
        assert(places.contains(i));
        assert(places.len() > 0) by {
            if places.len() == 0 {
                assert(places =~= Set::<int>::empty());
            }
        }
    }
}

/// The rank of a point depends on the last `atr_percent_len` relative ranges
/// and on nothing before: where those of two series agree, so do the ranks.
pub proof fn ranks_depend_on_the_last_ranges_alone(
    f: spec_fn(Calc) -> Double,
    g: spec_fn(Double) -> i32,
    a: Seq<Candle>,
    b: Seq<Candle>,
    config: GuailiConfig,
    i: int,
    j: int,
)
    requires
        config.atr_percent_len >= 1,
        0 <= i < a.len(),
        0 <= j < b.len(),
        config.atr_percent_len <= i + 1,
        config.atr_percent_len <= j + 1,
        forall|k: int|
            0 <= k < config.atr_percent_len ==> #[trigger] relative_range_at(
                f,
                a,
                at_least(config.atr_len, 1),
                i - k,
            ) == relative_range_at(f, b, at_least(config.atr_len, 1), j - k),
    ensures
        points_of(f, g, a, config)[i].atr_rank == points_of(f, g, b, config)[j].atr_rank,
        points_of(f, g, a, config)[i].rank_filter == points_of(f, g, b, config)[j].rank_filter,
{
    let length = config.atr_percent_len as int;
    let atr_len = at_least(config.atr_len, 1);
    let ra = relative_ranges_of(f, a, atr_len);
    let rb = relative_ranges_of(f, b, atr_len);
    let wa = window_at(ra, i, length);
    let wb = window_at(rb, j, length);
    assert forall|m: int| 0 <= m < length implies wa[m] == wb[m] by {
        let k = length - 1 - m;
        assert(relative_range_at(f, a, atr_len, i - k) == relative_range_at(f, b, atr_len, j - k));
        assert(wa[m] == ra[i - k]);
        assert(wb[m] == rb[j - k]);
    }
    assert(wa =~= wb);
    assert(relative_range_at(f, a, atr_len, i - 0) == relative_range_at(f, b, atr_len, j - 0));
    assert(ra[i] == rb[j]);
}

/// A point passes the rank filter exactly if it has a rank and that is at most
/// the largest that is allowed.
pub proof fn the_rank_filter_keeps_low_ranks(
    f: spec_fn(Calc) -> Double,
    g: spec_fn(Double) -> i32,
    candles: Seq<Candle>,
    config: GuailiConfig,
    i: int,
)
    requires
        0 <= i < candles.len(),
    ensures
        points_of(f, g, candles, config)[i].rank_filter <==> (points_of(
            f,
            g,
            candles,
            config,
        )[i].atr_rank matches Some(rank) && rank.le(config.max_atr_rank)),
{
}

/// The deviation is how far a candle that lies wholly on one side of the
/// average is from it, its near end to the average, in average ranges of the
/// candle before: above positive, below negative, and nought for a candle that
/// touches the average or where the range is nought. The value is ten times
/// that, cut to a whole number.
pub proof fn deviations_measure_the_distance_from_the_average(
    f: spec_fn(Calc) -> Double,
    g: spec_fn(Double) -> i32,
    candles: Seq<Candle>,
    config: GuailiConfig,
    i: int,
)
    requires
        0 <= i < candles.len(),
    ensures
        ({
            let points = points_of(f, g, candles, config);
            let point = points[i];
            let candle = candles[i];
            let range = if i > 0 {
                points[i - 1].atr14
            } else {
                points[0].atr14
            };
            let nought = Double { bits: 0 };
            let above = point.ma.lt(candle.low) && point.ma.lt(candle.high) && !range.same(nought);
            let below = candle.high.lt(point.ma) && candle.low.lt(point.ma) && !range.same(nought);
            &&& above ==> point.guaili == f(
                Calc::Divide(f(Calc::Subtract(candle.low, point.ma)), range),
            )
            &&& below ==> point.guaili == f(
                Calc::Negate(f(Calc::Divide(f(Calc::Subtract(point.ma, candle.high)), range))),
            )
            &&& !above && !below ==> point.guaili == nought
            &&& point.value == g(f(Calc::Multiply(point.guaili, f(Calc::Count(10)))))
        }),
{
}

/// A point is in a trend exactly if the average has gone one way in each of
/// the last three steps and, where the slope is asked for, has gone further in
/// them than `slope_mul` average ranges.
pub proof fn trends_are_three_steps_one_way(
    f: spec_fn(Calc) -> Double,
    g: spec_fn(Double) -> i32,
    candles: Seq<Candle>,
    config: GuailiConfig,
    i: int,
)
    requires
        3 <= i < candles.len(),
    ensures
        ({
            let points = points_of(f, g, candles, config);
            let steep = !config.use_slope || f(
                Calc::Multiply(points[i].atr14, config.slope_mul),
            ).lt(f(Calc::Absolute(f(Calc::Subtract(points[i].ma, points[i - 3].ma)))));
            &&& points[i].long_trend <==> points[i - 3].ma.lt(points[i - 2].ma) && points[i
                - 2].ma.lt(points[i - 1].ma) && points[i - 1].ma.lt(points[i].ma) && steep
            &&& points[i].short_trend <==> points[i - 2].ma.lt(points[i - 3].ma) && points[i
                - 1].ma.lt(points[i - 2].ma) && points[i].ma.lt(points[i - 1].ma) && steep
        }),
{
}

/// A length of nought counts as one.
pub proof fn lengths_of_nought_count_as_one(
    f: spec_fn(Calc) -> Double,
    g: spec_fn(Double) -> i32,
    candles: Seq<Candle>,
    config: GuailiConfig,
)
    ensures
        points_of(f, g, candles, GuailiConfig { ma_length: 0, ..config }) == points_of(
            f,
            g,
            candles,
            GuailiConfig { ma_length: 1, ..config },
        ),
        points_of(f, g, candles, GuailiConfig { atr_len: 0, ..config }) == points_of(
            f,
            g,
            candles,
            GuailiConfig { atr_len: 1, ..config },
        ),
        points_of(f, g, candles, GuailiConfig { atr_percent_len: 0, ..config }) == points_of(
            f,
            g,
            candles,
            GuailiConfig { atr_percent_len: 1, ..config },
        ),
{
    let a = GuailiConfig { ma_length: 0, ..config };
    let b = GuailiConfig { ma_length: 1, ..config };
    assert(averages_of(f, candles, a) =~= averages_of(f, candles, b));
    assert(ranks_of(f, candles, a) =~= ranks_of(f, candles, b));
    assert(points_of(f, g, candles, a) =~= points_of(f, g, candles, b));
    let a = GuailiConfig { atr_len: 0, ..config };
    let b = GuailiConfig { atr_len: 1, ..config };
    assert(averages_of(f, candles, a) =~= averages_of(f, candles, b));
    assert(ranks_of(f, candles, a) =~= ranks_of(f, candles, b));
    assert(points_of(f, g, candles, a) =~= points_of(f, g, candles, b));
    let a = GuailiConfig { atr_percent_len: 0, ..config };
    let b = GuailiConfig { atr_percent_len: 1, ..config };
    assert(averages_of(f, candles, a) =~= averages_of(f, candles, b));
    assert(ranks_of(f, candles, a) =~= ranks_of(f, candles, b));
    assert(points_of(f, g, candles, a) =~= points_of(f, g, candles, b));
}

} // verus!
