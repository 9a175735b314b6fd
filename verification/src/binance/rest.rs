//! The history that the exchange serves: which candles are missing, which
//! pages to ask for, and what to make of the answers.

use crate::domain::candle::Candle;
use crate::domain::interval::Interval;
use crate::domain::number::{calculates, Calc, Double};
use crate::engine::aggregator::{AggregationError, Aggregator};
use crate::storage::sqlite::{candles_of, open_times, open_times_of, StoredKline};
use std::collections::BTreeSet;
use vstd::prelude::*;
use vstd::string::*;

verus! {

broadcast use vstd::std_specs::btree::group_btree_axioms;

pub const MAX_KLINE_LIMIT: u32 = 1500;

pub const DEFAULT_REBUILD_LIMIT: u32 = 1_000_000;

// ---------------------------------------------------------------------------
// Gaps.
// ---------------------------------------------------------------------------

/// A run of opening times without a candle.
#[derive(Debug, Clone, Copy, PartialEq, Eq, Structural)]
pub struct MissingKlineRange {
    pub start_open_time: i64,
    pub end_open_time: i64,
    pub interval_ms: i64,
}

impl MissingKlineRange {
    /// How many candles lie between the first and the last time.
    pub open spec fn total(self) -> int {
        truncated_quotient(
            self.end_open_time - self.start_open_time,
            self.interval_ms as int,
        ) + 1
    }

    /// How many candles are asked for: the total, cut to 32 bits.
    pub open spec fn count(self) -> u32 {
        self.total() as u32
    }

    /// The range can be counted and every time in its pages is a 64-bit
    /// number.
    pub open spec fn countable(self) -> bool {
        let distance = self.end_open_time - self.start_open_time;
        let step = self.interval_ms as int;
        &&& step != 0
        &&& i64::MIN <= distance <= i64::MAX
        &&& !(distance == i64::MIN && step == -1)
        &&& self.total() <= i64::MAX
        &&& self.count() > 0 ==> {
            &&& i64::MIN <= (self.first_page() - 1) * step <= i64::MAX
            &&& i64::MIN < self.start_open_time + self.count() * step <= i64::MAX
        }
    }

    /// Whether the range can be counted and its pages planned.
    pub fn can_plan(&self) -> (r: bool)
        ensures
            r == self.countable(),
    {
        let step: i64 = self.interval_ms;
        if step == 0 {
            return false;
        }
        let distance: i64 = match self.end_open_time.checked_sub(self.start_open_time) {
            Some(distance) => distance,
            None => {
                return false;
            },
        };
        if distance == i64::MIN && step == -1 {
            return false;
        }
        let quotient: i64 = truncated_division(distance, step);
        if quotient == i64::MAX {
            return false;
        }
        let count: u32 = (quotient + 1) as u32;
        if count == 0 {
            return true;
        }
        let first: i64 = if count < MAX_KLINE_LIMIT {
            count as i64
        } else {
            MAX_KLINE_LIMIT as i64
        };
        if (first - 1).checked_mul(step).is_none() {
            return false;
        }
        proof {
            product_bounds(count as int, step as int);
        }
        let end: i128 = self.start_open_time as i128 + count as i128 * step as i128;
        (i64::MIN as i128) < end && end <= i64::MAX as i128
    }

    /// How many candles the first page asks for.
    pub open spec fn first_page(self) -> int {
        if self.count() < MAX_KLINE_LIMIT {
            self.count() as int
        } else {
            MAX_KLINE_LIMIT as int
        }
    }

    fn missing_count(&self) -> (r: u32)
        requires
            self.countable(),
        ensures
            r == self.count(),
    {
        let distance: i64 = self.end_open_time - self.start_open_time;
        (truncated_division(distance, self.interval_ms) + 1) as u32
    }
}

/// The distance of a number from zero.
pub open spec fn magnitude(a: int) -> int {
    if a < 0 {
        -a
    } else {
        a
    }
}

/// The quotient without its fraction, for numbers of either sign.
pub open spec fn truncated_quotient(a: int, b: int) -> int {
    if (a < 0) == (b < 0) {
        magnitude(a) / magnitude(b)
    } else {
        -(magnitude(a) / magnitude(b))
    }
}

fn size_of_number(a: i64) -> (r: u64)
    ensures
        r == magnitude(a as int),
{
    if a < 0 {
        (-(a + 1)) as u64 + 1
    } else {
        a as u64
    }
}

fn truncated_division(a: i64, b: i64) -> (r: i64)
    requires
        b != 0,
        !(a == i64::MIN && b == -1),
    ensures
        r == truncated_quotient(a as int, b as int),
{
    proof {
        quotient_bound(magnitude(a as int), magnitude(b as int));
        if magnitude(b as int) > 1 {
            vstd::arithmetic::div_mod::lemma_div_is_ordered_by_denominator(
                magnitude(a as int),
                2,
                magnitude(b as int),
            );
        }
    }
    let quotient: u64 = size_of_number(a) / size_of_number(b);
    if (a < 0) == (b < 0) {
        quotient as i64
    } else if quotient == 0 {
        0
    } else {
        -((quotient - 1) as i64) - 1
    }
}

/// A 32-bit count of 64-bit steps fits into 128 bits with room to spare.
proof fn product_bounds(count: int, step: int)
    by (nonlinear_arith)
    requires
        0 <= count <= u32::MAX,
        i64::MIN <= step <= i64::MAX,
    ensures
        -0x8000_0000_0000_0000_0000_0000 <= count * step <= 0x8000_0000_0000_0000_0000_0000,
{
}

proof fn quotient_bound(distance: int, step: int)
    requires
        distance >= 0,
        step > 0,
    ensures
        0 <= distance / step <= distance,
{
    vstd::arithmetic::div_mod::lemma_div_pos_is_pos(distance, step);
    vstd::arithmetic::div_mod::lemma_div_nonincreasing(distance, step);
}

/// `t` is one of the times at which a candle of the window should open.
pub open spec fn expected_time(start: int, end: int, interval_ms: int, t: int) -> bool {
    start <= t <= end && (t - start) % interval_ms == 0
}

/// `t` should have a candle and has none.
pub open spec fn missing_time(
    start: int,
    end: int,
    interval_ms: int,
    existing: Seq<i64>,
    t: int,
) -> bool {
    expected_time(start, end, interval_ms, t) && !existing.contains(t as i64)
}

/// The range is one whole run of missing times: it starts at a missing time
/// with no missing time directly before it, every expected time in it is
/// missing, and it reaches to the end of the window or to the last missing
/// time before one that is there.
pub open spec fn missing_run(
    start: int,
    end: int,
    interval_ms: int,
    existing: Seq<i64>,
    range: MissingKlineRange,
) -> bool {
    let first = range.start_open_time as int;
    let last = range.end_open_time as int;
    &&& range.interval_ms == interval_ms
    &&& missing_time(start, end, interval_ms, existing, first)
    &&& first <= last
    &&& first == start || !missing_time(start, end, interval_ms, existing, first - interval_ms)
    &&& forall|t: int|
        first <= t <= last && #[trigger] expected_time(start, end, interval_ms, t)
            ==> missing_time(start, end, interval_ms, existing, t)
    &&& last == end || {
        &&& expected_time(start, end, interval_ms, last)
        &&& expected_time(start, end, interval_ms, last + interval_ms)
        &&& !missing_time(start, end, interval_ms, existing, last + interval_ms)
    }
}

/// The ranges are the runs of missing times in the order of time, and no
/// missing time is left out.
pub open spec fn missing_ranges(
    start: int,
    end: int,
    interval_ms: int,
    existing: Seq<i64>,
    ranges: Seq<MissingKlineRange>,
) -> bool {
    &&& forall|i: int|
        0 <= i < ranges.len() ==> missing_run(
            start,
            end,
            interval_ms,
            existing,
            #[trigger] ranges[i],
        )
    &&& forall|i: int, j: int|
        0 <= i < j < ranges.len() ==> (#[trigger] ranges[i]).end_open_time
            < (#[trigger] ranges[j]).start_open_time
    &&& forall|t: int| #[trigger]
        missing_time(start, end, interval_ms, existing, t) ==> in_ranges(ranges, t)
}

/// `t` lies in one of the ranges.
pub open spec fn in_ranges(ranges: Seq<MissingKlineRange>, t: int) -> bool {
    exists|i: int|
        0 <= i < ranges.len() && (#[trigger] ranges[i]).start_open_time <= t
            <= ranges[i].end_open_time
}

/// The window can be walked in 64-bit numbers.
pub open spec fn walkable(start: int, end: int, interval_ms: int) -> bool {
    start <= end ==> interval_ms > 0 && start + ((end - start) / interval_ms + 1) * interval_ms
        <= i64::MAX
}

/// Whether the window can be walked in 64-bit numbers.
pub fn can_walk(start: i64, end: i64, interval_ms: i64) -> (r: bool)
    ensures
        r == walkable(start as int, end as int, interval_ms as int),
{
    if start > end {
        return true;
    }
    if interval_ms <= 0 {
        return false;
    }
    let distance: u128 = (end as i128 - start as i128) as u128;
    let step: u128 = interval_ms as u128;
    let rest: u128 = distance % step;
    proof {
        let d = distance as int;
        let s = step as int;
        vstd::arithmetic::div_mod::lemma_fundamental_div_mod(d, s);
        vstd::arithmetic::div_mod::lemma_mod_bound(d, s);
        quotient_bound(d, s);
        vstd::arithmetic::mul::lemma_mul_is_commutative(s, d / s);
        vstd::arithmetic::mul::lemma_mul_is_distributive_add_other_way(s, d / s, 1);
        vstd::arithmetic::mul::lemma_mul_nonnegative(s, d / s);
    }
    start as i128 + (distance - rest + step) as i128 <= i64::MAX as i128
}

fn time_set(times: &[i64]) -> (r: BTreeSet<i64>)
    ensures
        forall|t: i64| #[trigger] r@.contains(t) <==> times@.contains(t),
{
    let mut set: BTreeSet<i64> = BTreeSet::new();
    let mut i: usize = 0;
    while i < times.len()
        invariant
            i <= times@.len(),
            forall|t: i64| #[trigger] set@.contains(t) <==> times@.take(i as int).contains(t),
        decreases times@.len() - i,
    {
        let ghost before = set@;
        set.insert(times[i]);
        proof {
            let taken = times@.take(i + 1);
            assert(taken =~= times@.take(i as int).push(times@[i as int]));
            assert forall|t: i64| #[trigger] set@.contains(t) <==> taken.contains(t) by {
                if before.contains(t) {
                    let k = choose|k: int|
                        0 <= k < i && times@.take(i as int)[k] == t;
                    assert(taken[k] == t);
                }
                assert(taken[i as int] == times@[i as int]);
                if taken.contains(t) && t != times@[i as int] {
                    let k = choose|k: int| 0 <= k < taken.len() && taken[k] == t;
                    assert(times@.take(i as int)[k] == t);
                }
            }
        }
        i += 1;
    }
    assert(times@.take(times@.len() as int) =~= times@);
    set
}

/// The next expected time is one interval on.
proof fn next_expected(start: int, end: int, interval_ms: int, t: int)
    requires
        interval_ms > 0,
        expected_time(start, end, interval_ms, t),
    ensures
        (t + interval_ms - start) % interval_ms == 0,
        forall|u: int| t < u < t + interval_ms ==> !#[trigger] expected_time(start, end, interval_ms, u),
        t - interval_ms >= start ==> expected_time(start, end, interval_ms, t - interval_ms),
        t > start ==> t - interval_ms >= start,
{
    let k = t - start;
    vstd::arithmetic::div_mod::lemma_mod_add_multiples_vanish(k, interval_ms);
    vstd::arithmetic::div_mod::lemma_mod_sub_multiples_vanish(k, interval_ms);
    assert(t + interval_ms - start == interval_ms + k);
    assert(t - interval_ms - start == -interval_ms + k);
    assert forall|u: int| t < u < t + interval_ms implies !#[trigger] expected_time(
        start,
        end,
        interval_ms,
        u,
    ) by {
        between_multiples(k, u - start, interval_ms);
    }
    if t > start && t - interval_ms < start {
        between_multiples(0, k, interval_ms);
    }
}

/// No multiple lies strictly between two neighbours.
proof fn between_multiples(a: int, b: int, step: int)
    requires
        step > 0,
        a % step == 0,
        a < b < a + step,
    ensures
        b % step != 0,
{
    let d = b - a;
    vstd::arithmetic::div_mod::lemma_small_mod(d as nat, step as nat);
    vstd::arithmetic::div_mod::lemma_add_mod_noop(a, d, step);
}

/// The runs of opening times in a window, one candle per interval, for which
/// no candle exists.
pub fn detect_missing_kline_ranges(
    window_start_open_time: i64,
    window_end_open_time: i64,
    interval_ms: i64,
    existing_open_times: &[i64],
) -> (r: Vec<MissingKlineRange>)
    requires
        walkable(
            window_start_open_time as int,
            window_end_open_time as int,
            interval_ms as int,
        ),
    ensures
        missing_ranges(
            window_start_open_time as int,
            window_end_open_time as int,
            interval_ms as int,
            existing_open_times@,
            r@,
        ),
{
    let existing = time_set(existing_open_times);
    let mut ranges: Vec<MissingKlineRange> = Vec::new();
    if window_start_open_time > window_end_open_time {
        return ranges;
    }
    let ghost start = window_start_open_time as int;
    let ghost end = window_end_open_time as int;
    let ghost step = interval_ms as int;
    let ghost times = existing_open_times@;
    let ghost steps = (end - start) / step;
    proof {
        quotient_bound(end - start, step);
        vstd::arithmetic::div_mod::lemma_fundamental_div_mod(end - start, step);
        vstd::arithmetic::div_mod::lemma_mod_bound(end - start, step);
        vstd::arithmetic::mul::lemma_mul_is_commutative(step, steps);
        vstd::arithmetic::mul::lemma_mul_is_distributive_add_other_way(step, steps, 1);
    }
    let mut current_start: Option<i64> = None;
    let mut expected: i64 = window_start_open_time;
    while expected <= window_end_open_time
        invariant
            start == window_start_open_time as int,
            end == window_end_open_time as int,
            step == interval_ms as int,
            times == existing_open_times@,
            step > 0,
            start <= end,
            steps == (end - start) / step,
            start + steps * step + step <= i64::MAX,
            end < start + steps * step + step,
            forall|t: i64| #[trigger] existing@.contains(t) <==> times.contains(t),
            start <= expected <= start + steps * step + step,
            (expected - start) % step == 0,
            // The closed runs.
            forall|i: int|
                0 <= i < ranges@.len() ==> missing_run(start, end, step, times, #[trigger] ranges@[i])
                    && ranges@[i].end_open_time + step <= expected,
            forall|i: int, j: int|
                0 <= i < j < ranges@.len() ==> (#[trigger] ranges@[i]).end_open_time
                    < (#[trigger] ranges@[j]).start_open_time,
            // The open run.
            current_start matches Some(first) ==> {
                &&& missing_time(start, end, step, times, first as int)
                &&& first < expected
                &&& first == start || !missing_time(start, end, step, times, first - step)
                &&& forall|t: int|
                    first <= t < expected && #[trigger] expected_time(start, end, step, t)
                        ==> missing_time(start, end, step, times, t)
                &&& forall|i: int|
                    0 <= i < ranges@.len() ==> (#[trigger] ranges@[i]).end_open_time < first
            },
            current_start is None ==> expected == start || (expected_time(
                start,
                end,
                step,
                expected - step,
            ) && !missing_time(start, end, step, times, expected - step)),
            forall|t: int|
                t < expected && #[trigger] missing_time(start, end, step, times, t) ==> in_ranges(
                    ranges@,
                    t,
                ) || (current_start matches Some(first) && first <= t),
        decreases end + step - expected,
    {
        let ghost earlier = ranges@;
        let ghost opened = current_start;
        let ghost now = expected as int;
        proof {
            assert(expected_time(start, end, step, now));
            next_expected(start, end, step, now);
            if now + step > start + steps * step + step {
                // One step past the last expected time is the furthest.
                last_step(now - start, steps, step);
            }
        }
        if existing.contains(&expected) {
            match current_start {
                Some(first) => {
                    let range = MissingKlineRange {
                        start_open_time: first,
                        end_open_time: expected - interval_ms,
                        interval_ms,
                    };
                    ranges.push(range);
                    current_start = None;
                    proof {
                        assert(now > start);
                        assert(expected_time(start, end, step, now - step));
                        assert(now - step + step == now);
                        assert(first <= now - step) by {
                            if now - step < first {
                                next_expected(start, end, step, now - step);
                                assert(expected_time(start, end, step, first as int));
                            }
                        }
                        assert(missing_run(start, end, step, times, range));
                    }
                },
                None => {},
            }
        } else {
            match current_start {
                Some(_) => {},
                None => {
                    current_start = Some(expected);
                },
            }
        }
        expected += interval_ms;
        proof {
            assert(expected - step == now);
            assert forall|t: int|
                t < expected && #[trigger] missing_time(
                    start,
                    end,
                    step,
                    times,
                    t,
                ) implies in_ranges(ranges@, t) || (current_start matches Some(first) && first
                <= t) by {
                assert(expected_time(start, end, step, t));
                assert(t <= now);
                if t < now {
                    if in_ranges(earlier, t) {
                        let i = choose|i: int|
                            0 <= i < earlier.len() && (#[trigger] earlier[i]).start_open_time <= t
                                <= earlier[i].end_open_time;
                        assert(ranges@[i] == earlier[i]);
                    } else if ranges@.len() > earlier.len() {
                        assert(ranges@[earlier.len() as int].start_open_time <= t);
                        assert(t <= now - step) by {
                            if t > now - step {
                                next_expected(start, end, step, now - step);
                            }
                        }
                    }
                }
            }
        }
    }
    match current_start {
        Some(first) => {
            let range = MissingKlineRange {
                start_open_time: first,
                end_open_time: window_end_open_time,
                interval_ms,
            };
            let ghost earlier = ranges@;
            ranges.push(range);
            proof {
                assert(missing_run(start, end, step, times, range));
                assert forall|t: int| #[trigger]
                    missing_time(start, end, step, times, t) implies in_ranges(ranges@, t) by {
                    if in_ranges(earlier, t) {
                        let i = choose|i: int|
                            0 <= i < earlier.len() && (#[trigger] earlier[i]).start_open_time <= t
                                <= earlier[i].end_open_time;
                        assert(ranges@[i] == earlier[i]);
                    } else {
                        assert(ranges@[earlier.len() as int].start_open_time <= t);
                    }
                }
            }
        },
        None => {},
    }
    ranges
}

proof fn last_step(offset: int, steps: int, step: int)
    by (nonlinear_arith)
    requires
        step > 0,
        offset % step == 0,
        offset + step > steps * step + step,
    ensures
        offset >= steps * step + step,
{
    let k = offset / step;
    assert(offset == k * step);
    assert(k > steps);
    assert(k * step >= (steps + 1) * step);
}

/// The times of the first and the last closed candle of a look back over
/// `lookback_bars` candles, at least one.
pub open spec fn lookback(interval: Interval, lookback_bars: u32, now_ms: int) -> (int, int) {
    let latest = interval.bucket(now_ms) - interval.millis();
    let bars: int = if lookback_bars < 1 {
        1
    } else {
        lookback_bars as int
    };
    (latest - (bars - 1) * interval.millis(), latest)
}

/// The look back can be computed in 64-bit numbers.
pub open spec fn lookback_fits(interval: Interval, lookback_bars: u32, now_ms: int) -> bool {
    let window = lookback(interval, lookback_bars, now_ms);
    &&& interval.has_bucket(now_ms)
    &&& i64::MIN <= window.0
    &&& window.1 - window.0 <= i64::MAX
}

/// Whether the look back can be computed in 64-bit numbers.
pub fn can_look_back(interval: &Interval, lookback_bars: u32, now_ms: i64) -> (r: bool)
    ensures
        r == lookback_fits(*interval, lookback_bars, now_ms as int),
{
    if !interval.can_bucket(now_ms) {
        return false;
    }
    let interval_ms: i64 = interval.as_millis() as i64;
    let bar_count: i64 = if lookback_bars < 1 {
        1
    } else {
        lookback_bars as i64
    };
    proof {
        vstd::arithmetic::mul::lemma_mul_nonnegative(bar_count - 1, interval_ms as int);
    }
    let span: i64 = match (bar_count - 1).checked_mul(interval_ms) {
        Some(span) => span,
        None => {
            return false;
        },
    };
    match interval.bucket_start_ms(now_ms).checked_sub(interval_ms) {
        Some(latest) => latest.checked_sub(span).is_some(),
        None => false,
    }
}

pub fn closed_lookback_window(interval: &Interval, lookback_bars: u32, now_ms: i64) -> (r: (
    i64,
    i64,
))
    requires
        lookback_fits(*interval, lookback_bars, now_ms as int),
    ensures
        r.0 == lookback(*interval, lookback_bars, now_ms as int).0,
        r.1 == lookback(*interval, lookback_bars, now_ms as int).1,
        r.1 + interval.millis() == interval.bucket(now_ms as int),
        lookback_bars >= 1 ==> r.1 - r.0 == (lookback_bars - 1) * interval.millis(),
{
    let interval_ms: i64 = interval.as_millis() as i64;
    let bar_count: i64 = if lookback_bars < 1 {
        1
    } else {
        lookback_bars as i64
    };
    let current_bucket_start: i64 = interval.bucket_start_ms(now_ms);
    proof {
        vstd::arithmetic::mul::lemma_mul_nonnegative(bar_count - 1, interval_ms as int);
    }
    let latest_closed_open_time: i64 = current_bucket_start - interval_ms;
    let start_open_time: i64 = latest_closed_open_time - (bar_count - 1) * interval_ms;
    (start_open_time, latest_closed_open_time)
}

// ---------------------------------------------------------------------------
// Pages.
// ---------------------------------------------------------------------------

/// One request for candles.
#[derive(Debug, Clone, Copy, PartialEq, Eq, Structural)]
pub struct RestKlinePage {
    pub start_time: i64,
    pub end_time: i64,
    pub limit: u32,
}

/// How many pages of at most `MAX_KLINE_LIMIT` candles a range takes.
pub open spec fn page_count(count: int) -> int {
    (count + MAX_KLINE_LIMIT - 1) / MAX_KLINE_LIMIT as int
}

/// The page asks for the candles of the range from number
/// `index * MAX_KLINE_LIMIT` on: a full page, or what is left, up to the last
/// millisecond of the last candle.
pub open spec fn page_of(range: MissingKlineRange, index: int, page: RestKlinePage) -> bool {
    let done = index * MAX_KLINE_LIMIT;
    let left = range.count() - done;
    &&& page.limit == if left < MAX_KLINE_LIMIT {
        left
    } else {
        MAX_KLINE_LIMIT as int
    }
    &&& page.start_time == range.start_open_time + done * range.interval_ms
    &&& page.end_time == range.start_open_time + (done + page.limit) * range.interval_ms - 1
}

pub fn plan_rest_kline_pages(range: &MissingKlineRange) -> (r: Vec<RestKlinePage>)
    requires
        range.countable(),
    ensures
        r@.len() == page_count(range.count() as int),
        forall|i: int| 0 <= i < r@.len() ==> page_of(*range, i, #[trigger] r@[i]),
{
    let mut pages: Vec<RestKlinePage> = Vec::new();
    let mut next_start: i64 = range.start_open_time;
    let mut remaining: u32 = range.missing_count();
    let ghost count = range.count() as int;
    proof {
        vstd::arithmetic::mul::lemma_mul_basics(range.interval_ms as int);
    }
    while remaining > 0
        invariant
            range.countable(),
            count == range.count(),
            0 <= remaining <= count,
            next_start == range.start_open_time + (count - remaining) * range.interval_ms,
            remaining > 0 ==> count - remaining == pages@.len() * MAX_KLINE_LIMIT,
            remaining == 0 ==> pages@.len() == page_count(count),
            forall|i: int| 0 <= i < pages@.len() ==> page_of(*range, i, #[trigger] pages@[i]),
        decreases remaining,
    {
        let limit: u32 = if remaining < MAX_KLINE_LIMIT {
            remaining
        } else {
            MAX_KLINE_LIMIT
        };
        let ghost done = count - remaining;
        let ghost step = range.interval_ms as int;
        proof {
            page_bounds(done, limit as int, count, step);
            shorter_page_bounds(limit - 1, range.first_page() - 1, step);
        }
        let page_end_open_time: i64 = next_start + (limit as i64 - 1) * range.interval_ms;
        pages.push(
            RestKlinePage {
                start_time: next_start,
                end_time: page_end_open_time + range.interval_ms - 1,
                limit,
            },
        );
        next_start = page_end_open_time + range.interval_ms;
        remaining = remaining - limit;
    }
    pages
}

/// The times of a page lie between those of the whole range.
proof fn page_bounds(done: int, limit: int, count: int, step: int)
    by (nonlinear_arith)
    requires
        0 <= done,
        0 < limit,
        done + limit <= count,
    ensures
        done * step + (limit - 1) * step == (done + limit - 1) * step,
        (done + limit - 1) * step + step == (done + limit) * step,
        step >= 0 ==> 0 <= (done + limit - 1) * step <= (done + limit) * step <= count * step,
        step <= 0 ==> count * step <= (done + limit) * step <= (done + limit - 1) * step <= 0,
{
}

/// Fewer steps reach less far.
proof fn shorter_page_bounds(few: int, many: int, step: int)
    by (nonlinear_arith)
    requires
        0 <= few <= many,
    ensures
        step >= 0 ==> 0 <= few * step <= many * step,
        step <= 0 ==> many * step <= few * step <= 0,
{
}

/// The pages tile the range: the first starts with it, each starts where the
/// one before ended, and the last ends with the last candle that is asked for.
/// A range whose candles can be counted in 32 bits is asked for whole, and
/// nothing outside it.
pub proof fn pages_tile_the_range(range: MissingKlineRange, pages: Seq<RestKlinePage>)
    requires
        range.countable(),
        pages.len() == page_count(range.count() as int),
        forall|i: int| 0 <= i < pages.len() ==> page_of(range, i, #[trigger] pages[i]),
    ensures
        pages.len() > 0 ==> pages[0].start_time == range.start_open_time,
        forall|i: int, j: int|
            0 <= i && j == i + 1 && j < pages.len() ==> (#[trigger] pages[j]).start_time
                == (#[trigger] pages[i]).end_time + 1,
        forall|i: int|
            0 <= i < pages.len() ==> 1 <= (#[trigger] pages[i]).limit <= MAX_KLINE_LIMIT,
        pages.len() > 0 ==> pages.last().end_time == range.start_open_time + range.count()
            * range.interval_ms - 1,
        range.interval_ms > 0 && range.start_open_time <= range.end_open_time && range.total()
            <= u32::MAX ==> {
            &&& pages.len() > 0
            &&& pages.last().end_time - range.interval_ms < range.end_open_time
            &&& range.end_open_time <= pages.last().end_time
        },
{
    let pages_len = pages.len() as int;
    let count = range.count() as int;
    if pages_len > 0 {
        vstd::arithmetic::mul::lemma_mul_basics(range.interval_ms as int);
        assert(page_of(range, 0, pages[0]));
        assert(page_of(range, pages_len - 1, pages[pages_len - 1]));
        assert((pages_len - 1) * MAX_KLINE_LIMIT + pages.last().limit == count);
    }
    if range.interval_ms > 0 && range.start_open_time <= range.end_open_time && range.total()
        <= u32::MAX {
        let distance = range.end_open_time - range.start_open_time;
        let step = range.interval_ms as int;
        quotient_bound(distance, step);
        assert(count == distance / step + 1);
        vstd::arithmetic::div_mod::lemma_fundamental_div_mod(distance, step);
        vstd::arithmetic::div_mod::lemma_mod_bound(distance, step);
        vstd::arithmetic::mul::lemma_mul_is_commutative(step, distance / step);
        vstd::arithmetic::mul::lemma_mul_is_distributive_add_other_way(step, distance / step, 1);
    }
}

/// How many closed candles are asked for anew when the service starts.
pub const REFRESHED_CLOSED_BARS: u32 = 2;

/// The request for the candles that may have changed since the service last
/// ran: the newest closed ones and the open one.
pub open spec fn refresh_request(interval: Interval, now_ms: int) -> RestKlinePage {
    let open = interval.bucket(now_ms);
    RestKlinePage {
        start_time: (open - REFRESHED_CLOSED_BARS * interval.millis()) as i64,
        end_time: (open + interval.millis() - 1) as i64,
        limit: (REFRESHED_CLOSED_BARS + 1) as u32,
    }
}

/// The times of that request are 64-bit numbers.
pub open spec fn refresh_fits(interval: Interval, now_ms: int) -> bool {
    &&& interval.has_bucket(now_ms)
    &&& i64::MIN <= interval.bucket(now_ms) - REFRESHED_CLOSED_BARS * interval.millis()
    &&& interval.bucket(now_ms) + interval.millis() <= i64::MAX
}

/// Whether the times of that request are 64-bit numbers.
pub fn can_refresh(interval: &Interval, now_ms: i64) -> (r: bool)
    ensures
        r == refresh_fits(*interval, now_ms as int),
{
    if !interval.can_bucket(now_ms) {
        return false;
    }
    let interval_ms: i64 = interval.as_millis() as i64;
    let open: i64 = interval.bucket_start_ms(now_ms);
    if open.checked_add(interval_ms).is_none() {
        return false;
    }
    match open.checked_sub(interval_ms) {
        Some(before) => before.checked_sub(interval_ms).is_some(),
        None => false,
    }
}

pub fn refresh_page(interval: &Interval, now_ms: i64) -> (r: RestKlinePage)
    requires
        refresh_fits(*interval, now_ms as int),
    ensures
        r == refresh_request(*interval, now_ms as int),
{
    let interval_ms: i64 = interval.as_millis() as i64;
    let open: i64 = interval.bucket_start_ms(now_ms);
    RestKlinePage {
        start_time: open - interval_ms - interval_ms,
        end_time: open + interval_ms - 1,
        limit: REFRESHED_CLOSED_BARS + 1,
    }
}

/// What is asked for anew at the start reaches to the end of the open candle
/// and starts where the look back over as many closed candles does.
pub proof fn refresh_covers_the_newest_candles(interval: Interval, now_ms: int)
    requires
        interval.millis() > 0,
        interval is Weeks ==> crate::domain::interval::in_calendar(now_ms),
        refresh_fits(interval, now_ms),
    ensures
        refresh_request(interval, now_ms).start_time == lookback(
            interval,
            REFRESHED_CLOSED_BARS,
            now_ms,
        ).0,
        refresh_request(interval, now_ms).start_time <= now_ms <= refresh_request(
            interval,
            now_ms,
        ).end_time,
        refresh_request(interval, now_ms).end_time + 1 - refresh_request(
            interval,
            now_ms,
        ).start_time == refresh_request(interval, now_ms).limit * interval.millis(),
{
    crate::domain::interval::bucket_holds_its_instants(interval, now_ms);
    vstd::arithmetic::mul::lemma_mul_basics(interval.millis());
    assert(refresh_request(interval, now_ms).limit == 3);
}

/// The limit to ask the exchange for.
pub fn request_limit(limit: u32) -> (r: u32)
    ensures
        r == if limit < MAX_KLINE_LIMIT {
            limit
        } else {
            MAX_KLINE_LIMIT
        },
{
    if limit < MAX_KLINE_LIMIT {
        limit
    } else {
        MAX_KLINE_LIMIT
    }
}

// ---------------------------------------------------------------------------
// Sources.
// ---------------------------------------------------------------------------

/// How many candles of an interval a window should hold.
pub open spec fn bars_in(interval: Interval, start: int, end: int) -> int {
    truncated_quotient(end - start, interval.millis()) + 1
}

/// The candles of a window can be counted in 64-bit numbers.
pub open spec fn bars_fit(interval: Interval, start: int, end: int) -> bool {
    &&& interval.millis() > 0
    &&& i64::MIN <= end - start <= i64::MAX
    &&& bars_in(interval, start, end) <= i64::MAX
}

/// Whether the candles of a window can be counted in 64-bit numbers.
pub fn can_count_bars(interval: &Interval, window_start: i64, window_end: i64) -> (r: bool)
    ensures
        r == bars_fit(*interval, window_start as int, window_end as int),
{
    let interval_ms: i64 = interval.as_millis() as i64;
    if interval_ms == 0 {
        return false;
    }
    match window_end.checked_sub(window_start) {
        Some(distance) => truncated_division(distance, interval_ms) < i64::MAX,
        None => false,
    }
}

/// How many stored candles to ask for: those of the window, cut to 32 bits.
pub fn expected_bars(interval: &Interval, window_start: i64, window_end: i64) -> (r: u32)
    requires
        bars_fit(*interval, window_start as int, window_end as int),
    ensures
        r == bars_in(*interval, window_start as int, window_end as int) as u32,
{
    let distance: i64 = window_end - window_start;
    (truncated_division(distance, interval.as_millis() as i64) + 1) as u32
}

/// The runs of a window for which none of the stored rows stands.
pub fn missing_ranges_for_source(
    interval: &Interval,
    window_start_open_time: i64,
    window_end_open_time: i64,
    rows: &Vec<StoredKline>,
) -> (r: Vec<MissingKlineRange>)
    requires
        walkable(window_start_open_time as int, window_end_open_time as int, interval.millis()),
    ensures
        missing_ranges(
            window_start_open_time as int,
            window_end_open_time as int,
            interval.millis(),
            open_times_of(rows@),
            r@,
        ),
{
    let interval_ms: i64 = interval.as_millis() as i64;
    let times = open_times(rows);
    detect_missing_kline_ranges(
        window_start_open_time,
        window_end_open_time,
        interval_ms,
        times.as_slice(),
    )
}

// ---------------------------------------------------------------------------
// Custom intervals.
// ---------------------------------------------------------------------------

/// The trades of all the candles.
pub open spec fn trades_of(rows: Seq<Candle>) -> int
    decreases rows.len(),
{
    if rows.len() == 0 {
        0
    } else {
        trades_of(rows.drop_last()) + rows.last().trade_count
    }
}

proof fn trades_grow(rows: Seq<Candle>, i: int, j: int)
    requires
        0 <= i <= j <= rows.len(),
    ensures
        0 <= trades_of(rows.take(i)) <= trades_of(rows.take(j)),
    decreases j,
{
    if j == 0 {
    } else if i < j {
        trades_grow(rows, i, j - 1);
        assert(rows.take(j).drop_last() =~= rows.take(j - 1));
    } else {
        trades_grow(rows, i - 1, i - 1);
        assert(rows.take(i).drop_last() =~= rows.take(i - 1));
    }
}

/// The rows fill a bucket of the target: they start with it, follow each other
/// at the base's distance, and are as many as fit.
pub open spec fn fills_bucket(rows: Seq<Candle>, base_ms: int, target: Interval) -> bool {
    &&& rows.len() > 0
    &&& rows.len() == target.millis() / base_ms
    &&& rows[0].open_time == target.bucket(rows[0].open_time as int)
    &&& forall|i: int, j: int|
        0 <= i && j == i + 1 && j < rows.len() ==> (#[trigger] rows[j]).open_time - (
        #[trigger] rows[i]).open_time == base_ms
}

/// The rows of one bucket can be rolled up in machine numbers: the first row's
/// bucket can be computed, and if the rows fill it, so can that of every row,
/// with its end, and the trades fit.
pub open spec fn bucket_rows_fit(rows: Seq<Candle>, base_ms: int, target: Interval) -> bool {
    rows.len() > 0 ==> {
        &&& target.has_bucket(rows[0].open_time as int)
        &&& fills_bucket(rows, base_ms, target) ==> full_rows_fit(rows, target)
    }
}

/// The rows' buckets, with their ends, and the trades fit into machine
/// numbers.
pub open spec fn full_rows_fit(rows: Seq<Candle>, target: Interval) -> bool {
    &&& forall|i: int|
        0 <= i < rows.len() ==> target.has_bucket((#[trigger] rows[i]).open_time as int)
            && target.bucket(rows[i].open_time as int) + target.millis() <= i64::MAX
    &&& trades_of(rows) <= u64::MAX
}

/// The rows can be rolled up in machine numbers, bucket by bucket.
pub open spec fn rows_fit(rows: Seq<Candle>, base_ms: int, target: Interval) -> bool {
    target.millis() % base_ms == 0 ==> {
        &&& forall|i: int|
            0 <= i < rows.len() ==> target.has_bucket((#[trigger] rows[i]).open_time as int)
        &&& forall|g: int|
            0 <= g < bucket_groups(rows, target).len() ==> bucket_rows_fit(
                #[trigger] bucket_groups(rows, target)[g],
                base_ms,
                target,
            )
    }
}

/// Taking in `row` leads from one state to the next.
pub open spec fn roll_step<F: Fn(Calc) -> Double>(
    before: Aggregator,
    row: Candle,
    calc: F,
    after: Aggregator,
) -> bool {
    exists|handed_out: Option<Candle>| #[trigger]
        before.advances(row, calc, Ok::<Option<Candle>, AggregationError>(handed_out), after)
}

/// `states` are the states of an aggregator that takes in the rows in turn.
pub open spec fn rolls<F: Fn(Calc) -> Double>(
    states: Seq<Aggregator>,
    rows: Seq<Candle>,
    target: Interval,
    calc: F,
) -> bool {
    &&& states.len() == rows.len() + 1
    &&& states[0].span() == target && states[0].anchor() is None && states[0].open_candle() is None
    &&& forall|i: int, j: int|
        0 <= i && j == i + 1 && j < states.len() ==> roll_step(
            #[trigger] states[i],
            rows[i],
            calc,
            #[trigger] states[j],
        )
}

/// No row falls into an earlier bucket than the row before it.
pub open spec fn in_bucket_order(rows: Seq<Candle>, target: Interval) -> bool {
    forall|i: int, j: int|
        0 <= i && j == i + 1 && j < rows.len() ==> target.bucket(
            (#[trigger] rows[i]).open_time as int,
        ) <= target.bucket((#[trigger] rows[j]).open_time as int)
}

/// What the rows of one bucket make: the candle that rolling them up ends
/// with, closed, if they fill the bucket in order.
pub open spec fn bucket_result<F: Fn(Calc) -> Double>(
    rows: Seq<Candle>,
    base_ms: int,
    target: Interval,
    calc: F,
    r: Option<Candle>,
) -> bool {
    match r {
        Some(candle) => {
            &&& fills_bucket(rows, base_ms, target)
            &&& in_bucket_order(rows, target)
            &&& exists|states: Seq<Aggregator>|
                {
                    &&& #[trigger] rolls(states, rows, target, calc)
                    &&& states.last().open_candle() matches Some(current)
                    && candle == current.finalized()
                }
        },
        None => !fills_bucket(rows, base_ms, target) || !in_bucket_order(rows, target),
    }
}

/// The interval cuts whole buckets at the rows: a week is one week long, and
/// the calendar holds its rows.
pub open spec fn whole_buckets(rows: Seq<Candle>, target: Interval) -> bool {
    target is Weeks ==> target == Interval::Weeks(1) && forall|i: int|
        0 <= i < rows.len() ==> crate::domain::interval::in_calendar(
            (#[trigger] rows[i]).open_time as int,
        )
}

/// Rows that fill a bucket all fall into it, so their candle has every one of
/// them. An instant outside the calendar has no week.
pub proof fn full_buckets_hold_all_rows(rows: Seq<Candle>, base_ms: int, target: Interval)
    requires
        base_ms > 0,
        whole_buckets(rows, target),
        fills_bucket(rows, base_ms, target),
    ensures
        in_bucket_order(rows, target),
        forall|i: int|
            0 <= i < rows.len() ==> target.bucket((#[trigger] rows[i]).open_time as int)
                == rows[0].open_time,
{
    assert forall|i: int| 0 <= i < rows.len() implies target.bucket(
        (#[trigger] rows[i]).open_time as int,
    ) == rows[0].open_time by {
        row_in_full_bucket(rows, base_ms, target, i);
    }
}

proof fn row_in_full_bucket(rows: Seq<Candle>, base_ms: int, target: Interval, i: int)
    requires
        base_ms > 0,
        whole_buckets(rows, target),
        fills_bucket(rows, base_ms, target),
        0 <= i < rows.len(),
    ensures
        target.bucket(rows[i].open_time as int) == rows[0].open_time,
        rows[i].open_time == rows[0].open_time + i * base_ms,
    decreases i,
{
    let span = target.millis();
    let start = rows[0].open_time as int;
    if i > 0 {
        row_in_full_bucket(rows, base_ms, target, i - 1);
        assert(rows[i].open_time - rows[i - 1].open_time == base_ms);
        vstd::arithmetic::mul::lemma_mul_is_distributive_add_other_way(base_ms, i - 1, 1);
    } else {
        vstd::arithmetic::mul::lemma_mul_basics(base_ms);
    }
    assert(0 <= i * base_ms < span) by {
        vstd::arithmetic::div_mod::lemma_fundamental_div_mod(span, base_ms);
        vstd::arithmetic::div_mod::lemma_mod_bound(span, base_ms);
        assert(0 <= i * base_ms && i * base_ms + base_ms <= base_ms * (span / base_ms))
            by (nonlinear_arith)
            requires
                0 <= i < span / base_ms,
                base_ms > 0,
        ;
    }
    let offset = i * base_ms;
    if target is Weeks {
        assert(rows[i].open_time == start + offset);
        assert(crate::domain::interval::in_calendar(rows[0].open_time as int));
    } else {
        let quotient = start / span;
        assert(start == quotient * span);
        vstd::arithmetic::mul::lemma_mul_is_commutative(quotient, span);
        vstd::arithmetic::div_mod::lemma_fundamental_div_mod_converse(
            start + offset,
            span,
            quotient,
            offset,
        );
    }
}

/// The highest price of the rows.
pub open spec fn highest(rows: Seq<Candle>) -> Double
    decreases rows.len(),
{
    if rows.len() <= 1 {
        rows[0].high
    } else {
        highest(rows.drop_last()).larger(rows.last().high)
    }
}

/// The lowest price of the rows.
pub open spec fn lowest(rows: Seq<Candle>) -> Double
    decreases rows.len(),
{
    if rows.len() <= 1 {
        rows[0].low
    } else {
        lowest(rows.drop_last()).smaller(rows.last().low)
    }
}

/// The candle stands for the rows: it opens with the first, closes with the
/// last, and has the extremes and the trades of all.
pub open spec fn summarises(candle: Candle, rows: Seq<Candle>) -> bool {
    &&& rows.len() > 0
    &&& candle.open_time == rows[0].open_time
    &&& candle.open == rows[0].open
    &&& candle.close == rows.last().close
    &&& candle.high == highest(rows)
    &&& candle.low == lowest(rows)
    &&& candle.trade_count == trades_of(rows)
}

proof fn rolled_so_far<F: Fn(Calc) -> Double>(
    states: Seq<Aggregator>,
    rows: Seq<Candle>,
    target: Interval,
    calc: F,
    k: int,
)
    requires
        rolls(states, rows, target, calc),
        full_rows_fit(rows, target),
        forall|i: int|
            0 <= i < rows.len() ==> target.bucket((#[trigger] rows[i]).open_time as int)
                == rows[0].open_time,
        0 < k <= rows.len(),
    ensures
        states[k].span() == target,
        states[k].anchor() is None,
        states[k].open_candle() matches Some(current) && {
            &&& summarises(current, rows.take(k))
            &&& current.close_time >= rows[0].open_time + target.millis() - 1
        },
    decreases k,
{
    let row = rows[k - 1];
    assert(rows.take(k).drop_last() =~= rows.take(k - 1));
    assert(rows.take(k).last() == row);
    assert(roll_step(states[k - 1], row, calc, states[k]));
    assert(target.bucket(row.open_time as int) == rows[0].open_time);
    if k == 1 {
        assert(rows.take(1)[0] == rows[0]);
        assert(trades_of(rows.take(0)) == 0);
    } else {
        rolled_so_far(states, rows, target, calc, k - 1);
        assert(rows.take(k - 1)[0] == rows[0]);
        assert(rows.take(k)[0] == rows[0]);
    }
}

/// The candle of a bucket that is filled stands for all its rows and is
/// closed. An instant outside the calendar has no week.
pub proof fn complete_candles_stand_for_their_rows<F: Fn(Calc) -> Double>(
    rows: Seq<Candle>,
    base_ms: int,
    target: Interval,
    calc: F,
    candle: Candle,
)
    requires
        base_ms > 0,
        whole_buckets(rows, target),
        bucket_rows_fit(rows, base_ms, target),
        bucket_result(rows, base_ms, target, calc, Some(candle)),
    ensures
        summarises(candle, rows),
        candle.is_closed,
        candle.close_time >= candle.open_time + target.millis() - 1,
{
    full_buckets_hold_all_rows(rows, base_ms, target);
    let states = choose|states: Seq<Aggregator>|
        {
            &&& #[trigger] rolls(states, rows, target, calc)
            &&& states.last().open_candle() matches Some(current) && candle == current.finalized()
        };
    rolled_so_far(states, rows, target, calc, rows.len() as int);
    assert(rows.take(rows.len() as int) =~= rows);
}

/// Whether the rows fill a bucket.
fn fills(bucket_rows: &Vec<Candle>, base_ms: i64, target_interval: Interval) -> (r: bool)
    requires
        base_ms > 0,
        bucket_rows@.len() > 0 ==> target_interval.has_bucket(bucket_rows@[0].open_time as int),
    ensures
        r == fills_bucket(bucket_rows@, base_ms as int, target_interval),
{
    if bucket_rows.len() == 0 {
        return false;
    }
    let bucket_start: i64 = target_interval.bucket_start_ms(bucket_rows[0].open_time);
    let expected_count: u64 = target_interval.as_millis() / base_ms as u64;
    if bucket_rows.len() as u64 != expected_count || bucket_rows[0].open_time != bucket_start {
        return false;
    }
    let mut i: usize = 1;
    while i < bucket_rows.len()
        invariant
            1 <= i <= bucket_rows@.len(),
            forall|a: int, b: int|
                0 <= a && b == a + 1 && b < i ==> (#[trigger] bucket_rows@[b]).open_time - (
                #[trigger] bucket_rows@[a]).open_time == base_ms,
        decreases bucket_rows@.len() - i,
    {
        match bucket_rows[i].open_time.checked_sub(bucket_rows[i - 1].open_time) {
            Some(distance) => {
                if distance != base_ms {
                    return false;
                }
            },
            None => {
                return false;
            },
        }
        i += 1;
    }
    true
}

/// Whether the rows' buckets, with their ends, and the trades fit.
fn full_rows_can_roll(rows: &Vec<Candle>, target: Interval) -> (r: bool)
    ensures
        r == full_rows_fit(rows@, target),
{
    let length: i64 = target.as_millis() as i64;
    let mut trades: u64 = 0;
    let mut i: usize = 0;
    assert(rows@.take(0).len() == 0);
    while i < rows.len()
        invariant
            i <= rows@.len(),
            length == target.millis(),
            trades == trades_of(rows@.take(i as int)),
            forall|j: int|
                0 <= j < i ==> target.has_bucket((#[trigger] rows@[j]).open_time as int)
                    && target.bucket(rows@[j].open_time as int) + target.millis() <= i64::MAX,
        decreases rows@.len() - i,
    {
        let row = rows[i];
        proof {
            assert(row == rows@[i as int]);
            assert(rows@.take(i + 1).drop_last() =~= rows@.take(i as int));
            trades_grow(rows@, i + 1, rows@.len() as int);
            assert(rows@.take(rows@.len() as int) =~= rows@);
        }
        if !target.can_bucket(row.open_time) {
            return false;
        }
        if target.bucket_start_ms(row.open_time).checked_add(length).is_none() {
            return false;
        }
        match trades.checked_add(row.trade_count) {
            Some(sum) => {
                trades = sum;
            },
            None => {
                return false;
            },
        }
        i += 1;
    }
    assert(rows@.take(i as int) =~= rows@);
    true
}

/// Rolls the rows of one bucket into its candle, if they fill it.
#[verifier::spinoff_prover]
#[verifier::rlimit(40)]
pub fn aggregate_complete_bucket<F: Fn(Calc) -> Double>(
    bucket_rows: &Vec<Candle>,
    base_ms: i64,
    target_interval: Interval,
    calc: &F,
) -> (r: Option<Candle>)
    requires
        base_ms > 0,
        calculates(*calc),
        bucket_rows_fit(bucket_rows@, base_ms as int, target_interval),
    ensures
        bucket_result(bucket_rows@, base_ms as int, target_interval, *calc, r),
{
    if !fills(bucket_rows, base_ms, target_interval) {
        return None;
    }
    let mut aggregator = Aggregator::new(target_interval);
    let ghost mut states: Seq<Aggregator> = seq![aggregator];
    let ghost rows = bucket_rows@;
    let mut k: usize = 0;
    while k < bucket_rows.len()
        invariant
            k <= rows.len(),
            rows == bucket_rows@,
            calculates(*calc),
            full_rows_fit(rows, target_interval),
            states.len() == k + 1,
            states[k as int] == aggregator,
            states[0].span() == target_interval,
            states[0].anchor() is None,
            states[0].open_candle() is None,
            aggregator.span() == target_interval,
            aggregator.anchor() is None,
            k == 0 ==> aggregator.open_candle() is None,
            k > 0 ==> (aggregator.open_candle() matches Some(current) && current.open_time
                == target_interval.bucket(rows[k - 1].open_time as int) && current.trade_count
                <= trades_of(rows.take(k as int))),
            forall|i: int, j: int|
                0 <= i && j == i + 1 && j < k ==> target_interval.bucket(
                    (#[trigger] rows[i]).open_time as int,
                ) <= target_interval.bucket((#[trigger] rows[j]).open_time as int),
            forall|i: int, j: int|
                0 <= i && j == i + 1 && j < states.len() ==> roll_step(
                    #[trigger] states[i],
                    rows[i],
                    *calc,
                    #[trigger] states[j],
                ),
        decreases rows.len() - k,
    {
        let ghost before = aggregator;
        proof {
            trades_grow(rows, k as int, k as int);
            trades_grow(rows, k + 1, rows.len() as int);
            assert(rows.take(k + 1).drop_last() =~= rows.take(k as int));
            assert(rows.take(rows.len() as int) =~= rows);
            crate::domain::interval::bucket_fits(target_interval, rows[k as int].open_time as int);
        }
        match aggregator.ingest_candle(bucket_rows[k], calc) {
            Ok(_) => {
                proof {
                    assert(roll_step(before, rows[k as int], *calc, aggregator));
                    states = states.push(aggregator);
                }
            },
            Err(_) => {
                proof {
                    assert(k > 0);
                    assert(!in_bucket_order(rows, target_interval)) by {
                        assert(target_interval.bucket(rows[k - 1].open_time as int)
                            > target_interval.bucket(rows[k as int].open_time as int));
                    }
                }
                return None;
            },
        }
        k += 1;
    }
    proof {
        assert(rolls(states, rows, target_interval, *calc));
    }
    aggregator.flush()
}

/// The rows cut where the bucket changes.
pub open spec fn bucket_groups(rows: Seq<Candle>, target: Interval) -> Seq<Seq<Candle>>
    decreases rows.len(),
{
    if rows.len() == 0 {
        Seq::empty()
    } else {
        let groups = bucket_groups(rows.drop_last(), target);
        let row = rows.last();
        if groups.len() > 0 && target.bucket(groups.last().last().open_time as int)
            == target.bucket(row.open_time as int) {
            groups.update(groups.len() - 1, groups.last().push(row))
        } else {
            groups.push(seq![row])
        }
    }
}

/// The candles that were made, in order.
pub open spec fn present(made: Seq<Option<Candle>>) -> Seq<Candle>
    decreases made.len(),
{
    if made.len() == 0 {
        Seq::empty()
    } else {
        match made.last() {
            Some(candle) => present(made.drop_last()).push(candle),
            None => present(made.drop_last()),
        }
    }
}

/// `output` has the candles of the groups that fill their bucket.
pub open spec fn complete_groups<F: Fn(Calc) -> Double>(
    groups: Seq<Seq<Candle>>,
    base_ms: int,
    target: Interval,
    calc: F,
    output: Seq<Candle>,
) -> bool {
    exists|made: Seq<Option<Candle>>| #[trigger]
        made_from(groups, base_ms, target, calc, made) && output == present(made)
}

pub open spec fn made_from<F: Fn(Calc) -> Double>(
    groups: Seq<Seq<Candle>>,
    base_ms: int,
    target: Interval,
    calc: F,
    made: Seq<Option<Candle>>,
) -> bool {
    &&& made.len() == groups.len()
    &&& forall|i: int|
        0 <= i < groups.len() ==> bucket_result(
            #[trigger] groups[i],
            base_ms,
            target,
            calc,
            made[i],
        )
}

/// The groups as values.
pub open spec fn group_views(groups: Seq<Vec<Candle>>) -> Seq<Seq<Candle>> {
    groups.map_values(|group: Vec<Candle>| group@)
}

/// Cuts the rows where the bucket changes.
fn cut_buckets(source_rows: &Vec<StoredKline>, target: Interval) -> (r: Vec<Vec<Candle>>)
    requires
        forall|i: int|
            0 <= i < source_rows@.len() ==> target.has_bucket(
                (#[trigger] candles_of(source_rows@)[i]).open_time as int,
            ),
    ensures
        group_views(r@) == bucket_groups(candles_of(source_rows@), target),
{
    let ghost rows = candles_of(source_rows@);
    let mut groups: Vec<Vec<Candle>> = Vec::new();
    let mut open: Vec<Candle> = Vec::new();
    let mut open_start: i64 = 0;
    let mut i: usize = 0;
    while i < source_rows.len()
        invariant
            i <= source_rows@.len(),
            rows == candles_of(source_rows@),
            forall|j: int|
                0 <= j < rows.len() ==> target.has_bucket((#[trigger] rows[j]).open_time as int),
            i == 0 ==> groups@.len() == 0 && open@.len() == 0,
            i > 0 ==> {
                &&& open@.len() > 0
                &&& open@.last() == rows[i - 1]
                &&& open_start == target.bucket(rows[i - 1].open_time as int)
                &&& bucket_groups(rows.take(i as int), target) == group_views(groups@).push(open@)
            },
        decreases source_rows@.len() - i,
    {
        let row = source_rows[i].candle;
        let ghost earlier = bucket_groups(rows.take(i as int), target);
        let ghost done = group_views(groups@);
        let ghost open_rows = open@;
        proof {
            assert(row == rows[i as int]);
            assert(rows.take(i + 1).drop_last() =~= rows.take(i as int));
            assert(rows.take(i + 1).last() == row);
        }
        let start: i64 = target.bucket_start_ms(row.open_time);
        if i > 0 && start != open_start {
            groups.push(open);
            assert(group_views(groups@) =~= done.push(open_rows));
            open = Vec::new();
        }
        open.push(row);
        open_start = start;
        i += 1;
        proof {
            let now = bucket_groups(rows.take(i as int), target);
            if i == 1 {
                assert(earlier.len() == 0);
                assert(open@ =~= seq![row]);
                assert(now =~= group_views(groups@).push(open@));
            } else if group_views(groups@).len() > done.len() {
                assert(now == earlier.push(seq![row]));
                assert(open@ =~= seq![row]);
                assert(now =~= group_views(groups@).push(open@));
            } else {
                assert(earlier.last() == open_rows);
                assert(now == earlier.update(earlier.len() - 1, open_rows.push(row)));
                assert(now =~= group_views(groups@).push(open@));
            }
        }
    }
    assert(rows.take(i as int) =~= rows);
    if i > 0 {
        let ghost done = group_views(groups@);
        let ghost open_rows = open@;
        groups.push(open);
        assert(group_views(groups@) =~= done.push(open_rows));
    }
    assert(group_views(groups@) =~= bucket_groups(rows, target));
    groups
}

/// Whether the rows can be rolled up in machine numbers, bucket by bucket.
pub fn can_aggregate(
    source_rows: &Vec<StoredKline>,
    base_interval: Interval,
    target_interval: Interval,
) -> (r: bool)
    requires
        base_interval.millis() > 0,
    ensures
        r == rows_fit(candles_of(source_rows@), base_interval.millis(), target_interval),
{
    if target_interval.as_millis() % base_interval.as_millis() != 0 {
        return true;
    }
    let base_ms: i64 = base_interval.as_millis() as i64;
    let ghost rows = candles_of(source_rows@);
    let mut i: usize = 0;
    while i < source_rows.len()
        invariant
            i <= source_rows@.len(),
            rows == candles_of(source_rows@),
            base_ms == base_interval.millis(),
            target_interval.millis() % base_ms as int == 0,
            forall|j: int|
                0 <= j < i ==> target_interval.has_bucket(
                    (#[trigger] rows[j]).open_time as int,
                ),
        decreases source_rows@.len() - i,
    {
        assert(rows[i as int] == source_rows@[i as int].candle);
        if !target_interval.can_bucket(source_rows[i].candle.open_time) {
            return false;
        }
        i += 1;
    }
    let groups = cut_buckets(source_rows, target_interval);
    let ghost views = bucket_groups(rows, target_interval);
    let mut g: usize = 0;
    while g < groups.len()
        invariant
            g <= groups@.len(),
            rows == candles_of(source_rows@),
            views == bucket_groups(rows, target_interval),
            group_views(groups@) == views,
            base_ms == base_interval.millis(),
            base_ms > 0,
            target_interval.millis() % base_ms as int == 0,
            forall|j: int|
                0 <= j < rows.len() ==> target_interval.has_bucket(
                    (#[trigger] rows[j]).open_time as int,
                ),
            forall|j: int|
                0 <= j < g ==> bucket_rows_fit(#[trigger] views[j], base_ms as int, target_interval),
        decreases groups@.len() - g,
    {
        let group = &groups[g];
        proof {
            assert(views[g as int] == group@);
            groups_are_of_the_rows(rows, target_interval, g as int);
        }
        if fills(group, base_ms, target_interval) && !full_rows_can_roll(group, target_interval) {
            assert(!bucket_rows_fit(views[g as int], base_ms as int, target_interval));
            return false;
        }
        g += 1;
    }
    true
}

/// Every group has rows, and its first row is one of those that were cut.
proof fn groups_are_of_the_rows(rows: Seq<Candle>, target: Interval, g: int)
    requires
        0 <= g < bucket_groups(rows, target).len(),
    ensures
        bucket_groups(rows, target)[g].len() > 0,
        exists|i: int| 0 <= i < rows.len() && #[trigger] rows[i] == bucket_groups(rows, target)[g][0],
    decreases rows.len(),
{
    let earlier = bucket_groups(rows.drop_last(), target);
    if g < earlier.len() {
        groups_are_of_the_rows(rows.drop_last(), target, g);
        let i = choose|i: int|
            0 <= i < rows.drop_last().len() && #[trigger] rows.drop_last()[i] == earlier[g][0];
        assert(rows[i] == earlier[g][0]);
    } else {
        assert(rows[rows.len() - 1] == bucket_groups(rows, target)[g][0]);
    }
}

/// Rolls the rows of the base interval into the target's candles. Only
/// buckets that the rows fill make a candle, and a target that the base does
/// not divide has none.
pub fn aggregate_complete_custom_klines<F: Fn(Calc) -> Double>(
    source_rows: &Vec<StoredKline>,
    base_interval: Interval,
    target_interval: Interval,
    calc: &F,
) -> (r: Vec<Candle>)
    requires
        base_interval.millis() > 0,
        calculates(*calc),
        rows_fit(candles_of(source_rows@), base_interval.millis(), target_interval),
    ensures
        target_interval.millis() % base_interval.millis() != 0 ==> r@.len() == 0,
        target_interval.millis() % base_interval.millis() == 0 ==> complete_groups(
            bucket_groups(candles_of(source_rows@), target_interval),
            base_interval.millis(),
            target_interval,
            *calc,
            r@,
        ),
{
    let base_ms: i64 = base_interval.as_millis() as i64;
    let mut output: Vec<Candle> = Vec::new();
    if target_interval.as_millis() % base_interval.as_millis() != 0 {
        return output;
    }
    let ghost views = bucket_groups(candles_of(source_rows@), target_interval);
    let groups = cut_buckets(source_rows, target_interval);
    let ghost mut made: Seq<Option<Candle>> = Seq::empty();
    let mut g: usize = 0;
    while g < groups.len()
        invariant
            g <= groups@.len(),
            group_views(groups@) == views,
            base_ms > 0,
            calculates(*calc),
            forall|j: int|
                0 <= j < views.len() ==> bucket_rows_fit(
                    #[trigger] views[j],
                    base_ms as int,
                    target_interval,
                ),
            made.len() == g,
            forall|j: int|
                0 <= j < g ==> bucket_result(
                    #[trigger] views[j],
                    base_ms as int,
                    target_interval,
                    *calc,
                    made[j],
                ),
            output@ == present(made),
        decreases groups@.len() - g,
    {
        assert(views[g as int] == groups@[g as int]@);
        let candle = aggregate_complete_bucket(&groups[g], base_ms, target_interval, calc);
        proof {
            assert(made.push(candle).drop_last() =~= made);
            made = made.push(candle);
        }
        match candle {
            Some(candle) => {
                output.push(candle);
            },
            None => {},
        }
        g += 1;
    }
    assert(made_from(views, base_ms as int, target_interval, *calc, made));
    output
}

/// The candles whose opening time is none of `times`.
pub open spec fn without_times(candles: Seq<Candle>, times: Seq<i64>) -> Seq<Candle> {
    candles.filter(|candle: Candle| !times.contains(candle.open_time))
}

/// The candles that are not stored yet.
pub fn missing_candles(candles: &Vec<Candle>, existing_rows: &Vec<StoredKline>) -> (r: Vec<Candle>)
    ensures
        r@ == without_times(candles@, open_times_of(existing_rows@)),
{
    let times = open_times(existing_rows);
    let existing = time_set(times.as_slice());
    let ghost keep = |candle: Candle| !times@.contains(candle.open_time);
    let mut missing: Vec<Candle> = Vec::new();
    let mut i: usize = 0;
    assert(candles@.take(0).filter(keep) =~= Seq::<Candle>::empty()) by {
        reveal(Seq::filter);
    }
    while i < candles.len()
        invariant
            i <= candles@.len(),
            keep == (|candle: Candle| !times@.contains(candle.open_time)),
            forall|t: i64| #[trigger] existing@.contains(t) <==> times@.contains(t),
            missing@ == candles@.take(i as int).filter(keep),
        decreases candles@.len() - i,
    {
        assert(candles@.take(i + 1).drop_last() =~= candles@.take(i as int));
        proof {
            reveal(Seq::filter);
        }
        if !existing.contains(&candles[i].open_time) {
            missing.push(candles[i]);
        }
        i += 1;
    }
    assert(candles@.take(candles@.len() as int) =~= candles@);
    missing
}

/// The candles of a custom interval that the rows of its base interval make.
/// Names that name no interval are refused.
pub fn rebuild_custom_klines<F: Fn(Calc) -> Double>(
    base: &str,
    target: &str,
    source_rows: &Vec<StoredKline>,
    calc: &F,
) -> (r: Result<Vec<Candle>, RestError>)
    requires
        calculates(*calc),
        crate::domain::interval::parsed_interval(base@) matches Some(base_interval) ==> (
        crate::domain::interval::parsed_interval(target@) matches Some(target_interval)
            ==> rows_fit(candles_of(source_rows@), base_interval.millis(), target_interval)),
    ensures
        match (
            crate::domain::interval::parsed_interval(base@),
            crate::domain::interval::parsed_interval(target@),
        ) {
            (Some(base_interval), Some(target_interval)) => r matches Ok(candles) && {
                &&& target_interval.millis() % base_interval.millis() != 0 ==> candles@.len() == 0
                &&& target_interval.millis() % base_interval.millis() == 0 ==> complete_groups(
                    bucket_groups(candles_of(source_rows@), target_interval),
                    base_interval.millis(),
                    target_interval,
                    *calc,
                    candles@,
                )
            },
            _ => r matches Err(RestError::InvalidPayload),
        },
{
    let target_interval = match Interval::parse(target) {
        Ok(interval) => interval,
        Err(_) => {
            return Err(RestError::InvalidPayload);
        },
    };
    let base_interval = match Interval::parse(base) {
        Ok(interval) => interval,
        Err(_) => {
            return Err(RestError::InvalidPayload);
        },
    };
    Ok(aggregate_complete_custom_klines(source_rows, base_interval, target_interval, calc))
}

// ---------------------------------------------------------------------------
// Answers.
// ---------------------------------------------------------------------------

#[derive(Debug, PartialEq, Eq)]
pub enum RestError {
    Http(String),
    Json(String),
    Storage(String),
    InvalidPayload,
    Number(String),
}

impl RestError {
    pub open spec fn text(self) -> Seq<char> {
        match self {
            RestError::Http(reason) => "http error: "@ + reason@,
            RestError::Json(reason) => "json error: "@ + reason@,
            RestError::Storage(reason) => "storage error: "@ + reason@,
            RestError::InvalidPayload => "invalid kline payload"@,
            RestError::Number(reason) => "invalid number: "@ + reason@,
        }
    }

    pub fn message(&self) -> (r: String)
        ensures
            r@ == self.text(),
    {
        match self {
            RestError::Http(reason) => "http error: ".to_owned().concat(reason.as_str()),
            RestError::Json(reason) => "json error: ".to_owned().concat(reason.as_str()),
            RestError::Storage(reason) => "storage error: ".to_owned().concat(reason.as_str()),
            RestError::InvalidPayload => "invalid kline payload".to_owned(),
            RestError::Number(reason) => "invalid number: ".to_owned().concat(reason.as_str()),
        }
    }
}

/// A JSON value as far as candles need it. A number is held as the signed and
/// the unsigned 64-bit integer that it is, if it is one.
#[derive(Debug, PartialEq, Eq)]
pub enum JsonValue {
    Array(Vec<JsonValue>),
    Text(String),
    Number { signed: Option<i64>, unsigned: Option<u64> },
    Other,
}

impl JsonValue {
    pub open spec fn signed_number(self) -> Option<i64> {
        match self {
            JsonValue::Number { signed, unsigned } => signed,
            _ => None,
        }
    }

    pub open spec fn unsigned_number(self) -> Option<u64> {
        match self {
            JsonValue::Number { signed, unsigned } => unsigned,
            _ => None,
        }
    }

    fn as_i64(&self) -> (r: Option<i64>)
        ensures
            r == self.signed_number(),
    {
        match self {
            JsonValue::Number { signed, unsigned: _ } => *signed,
            _ => None,
        }
    }

    fn as_u64(&self) -> (r: Option<u64>)
        ensures
            r == self.unsigned_number(),
    {
        match self {
            JsonValue::Number { signed: _, unsigned } => *unsigned,
            _ => None,
        }
    }
}

/// `read` can be called on any text.
pub open spec fn reads<R: Fn(&String) -> Result<Double, String>>(read: R) -> bool {
    forall|s: String| call_requires(read, (&s,))
}

/// What a price or a volume is: the number that `read` makes of a text.
pub open spec fn number_read<R: Fn(&String) -> Result<Double, String>>(
    value: JsonValue,
    read: R,
    r: Result<Double, RestError>,
) -> bool {
    match value {
        JsonValue::Text(s) => match r {
            Ok(number) => call_ensures(read, (&s,), Ok::<Double, String>(number)),
            Err(RestError::Number(reason)) => call_ensures(
                read,
                (&s,),
                Err::<Double, String>(reason),
            ),
            Err(_) => false,
        },
        _ => r matches Err(RestError::InvalidPayload),
    }
}

fn string_number<R: Fn(&String) -> Result<Double, String>>(value: &JsonValue, read: &R) -> (r:
    Result<Double, RestError>)
    requires
        reads(*read),
    ensures
        number_read(*value, *read, r),
{
    match value {
        JsonValue::Text(s) => match read(s) {
            Ok(number) => Ok(number),
            Err(reason) => Err(RestError::Number(reason)),
        },
        _ => Err(RestError::InvalidPayload),
    }
}

/// What a row of the answer is, given its prices and volumes in the order
/// open, high, low, close, volume, quote volume: the candle, or the first
/// thing that is wrong with it.
pub open spec fn row_outcome(
    values: Seq<JsonValue>,
    open: Result<Double, RestError>,
    high: Result<Double, RestError>,
    low: Result<Double, RestError>,
    close: Result<Double, RestError>,
    volume: Result<Double, RestError>,
    quote_volume: Result<Double, RestError>,
) -> Result<Candle, RestError> {
    if values[0].signed_number() is None {
        Err(RestError::InvalidPayload)
    } else if open is Err {
        Err(open->Err_0)
    } else if high is Err {
        Err(high->Err_0)
    } else if low is Err {
        Err(low->Err_0)
    } else if close is Err {
        Err(close->Err_0)
    } else if volume is Err {
        Err(volume->Err_0)
    } else if values[6].signed_number() is None {
        Err(RestError::InvalidPayload)
    } else if quote_volume is Err {
        Err(quote_volume->Err_0)
    } else if values[8].unsigned_number() is None {
        Err(RestError::InvalidPayload)
    } else {
        Ok(
            Candle {
                open_time: values[0].signed_number()->0,
                close_time: values[6].signed_number()->0,
                open: open->Ok_0,
                high: high->Ok_0,
                low: low->Ok_0,
                close: close->Ok_0,
                volume: volume->Ok_0,
                quote_volume: quote_volume->Ok_0,
                trade_count: values[8].unsigned_number()->0,
                is_closed: true,
            },
        )
    }
}

/// The six readings belong to the row, and `r` is what they make of it.
pub open spec fn row_made<R: Fn(&String) -> Result<Double, String>>(
    values: Seq<JsonValue>,
    read: R,
    n: (
        Result<Double, RestError>,
        Result<Double, RestError>,
        Result<Double, RestError>,
        Result<Double, RestError>,
        Result<Double, RestError>,
        Result<Double, RestError>,
    ),
    r: Result<Candle, RestError>,
) -> bool {
    &&& number_read(values[1], read, n.0)
    &&& number_read(values[2], read, n.1)
    &&& number_read(values[3], read, n.2)
    &&& number_read(values[4], read, n.3)
    &&& number_read(values[5], read, n.4)
    &&& number_read(values[7], read, n.5)
    &&& r == row_outcome(values, n.0, n.1, n.2, n.3, n.4, n.5)
}

/// What one row of the answer is.
pub open spec fn row_read<R: Fn(&String) -> Result<Double, String>>(
    row: JsonValue,
    read: R,
    r: Result<Candle, RestError>,
) -> bool {
    match row {
        JsonValue::Array(values) => if values@.len() < 9 {
            r matches Err(RestError::InvalidPayload)
        } else {
            exists|
                n: (
                    Result<Double, RestError>,
                    Result<Double, RestError>,
                    Result<Double, RestError>,
                    Result<Double, RestError>,
                    Result<Double, RestError>,
                    Result<Double, RestError>,
                ),
            | #[trigger] row_made(values@, read, n, r)
        },
        _ => r matches Err(RestError::InvalidPayload),
    }
}

fn parse_rest_kline_row<R: Fn(&String) -> Result<Double, String>>(row: &JsonValue, read: &R) -> (r:
    Result<Candle, RestError>)
    requires
        reads(*read),
    ensures
        row_read(*row, *read, r),
{
    let values = match row {
        JsonValue::Array(values) => values,
        _ => {
            return Err(RestError::InvalidPayload);
        },
    };
    if values.len() < 9 {
        return Err(RestError::InvalidPayload);
    }
    let open = string_number(&values[1], read);
    let high = string_number(&values[2], read);
    let low = string_number(&values[3], read);
    let close = string_number(&values[4], read);
    let volume = string_number(&values[5], read);
    let quote_volume = string_number(&values[7], read);
    let ghost n = (open, high, low, close, volume, quote_volume);
    let r = row_candle(values, open, high, low, close, volume, quote_volume);
    assert(row_made(values@, *read, n, r));
    r
}

fn row_candle(
    values: &Vec<JsonValue>,
    open: Result<Double, RestError>,
    high: Result<Double, RestError>,
    low: Result<Double, RestError>,
    close: Result<Double, RestError>,
    volume: Result<Double, RestError>,
    quote_volume: Result<Double, RestError>,
) -> (r: Result<Candle, RestError>)
    requires
        values@.len() >= 9,
    ensures
        r == row_outcome(values@, open, high, low, close, volume, quote_volume),
{
    let open_time: i64 = match values[0].as_i64() {
        Some(time) => time,
        None => {
            return Err(RestError::InvalidPayload);
        },
    };
    let open = match open {
        Ok(number) => number,
        Err(error) => {
            return Err(error);
        },
    };
    let high = match high {
        Ok(number) => number,
        Err(error) => {
            return Err(error);
        },
    };
    let low = match low {
        Ok(number) => number,
        Err(error) => {
            return Err(error);
        },
    };
    let close = match close {
        Ok(number) => number,
        Err(error) => {
            return Err(error);
        },
    };
    let volume = match volume {
        Ok(number) => number,
        Err(error) => {
            return Err(error);
        },
    };
    let close_time: i64 = match values[6].as_i64() {
        Some(time) => time,
        None => {
            return Err(RestError::InvalidPayload);
        },
    };
    let quote_volume = match quote_volume {
        Ok(number) => number,
        Err(error) => {
            return Err(error);
        },
    };
    let trade_count: u64 = match values[8].as_u64() {
        Some(count) => count,
        None => {
            return Err(RestError::InvalidPayload);
        },
    };
    Ok(
        Candle {
            open_time,
            close_time,
            open,
            high,
            low,
            close,
            volume,
            quote_volume,
            trade_count,
            is_closed: true,
        },
    )
}

/// The row is a candle.
pub open spec fn row_accepted<R: Fn(&String) -> Result<Double, String>>(
    row: JsonValue,
    read: R,
) -> bool {
    exists|candle: Candle| #[trigger] row_read(row, read, Ok::<Candle, RestError>(candle))
}

/// Row number `i` is the first that is no candle, for the given reason.
pub open spec fn first_refused<R: Fn(&String) -> Result<Double, String>>(
    rows: Seq<JsonValue>,
    read: R,
    i: int,
    error: RestError,
) -> bool {
    &&& 0 <= i < rows.len()
    &&& row_read(rows[i], read, Err::<Candle, RestError>(error))
    &&& forall|j: int| 0 <= j < i ==> row_accepted(#[trigger] rows[j], read)
}

/// What the rows of an answer are: their candles, or what is wrong with the
/// first that is none.
pub open spec fn rows_read<R: Fn(&String) -> Result<Double, String>>(
    rows: Seq<JsonValue>,
    read: R,
    r: Result<Vec<Candle>, RestError>,
) -> bool {
    match r {
        Ok(candles) => {
            &&& candles@.len() == rows.len()
            &&& forall|i: int|
                0 <= i < rows.len() ==> row_read(
                    #[trigger] rows[i],
                    read,
                    Ok::<Candle, RestError>(candles@[i]),
                )
        },
        Err(error) => exists|i: int| #[trigger] first_refused(rows, read, i, error),
    }
}

fn parse_rows<R: Fn(&String) -> Result<Double, String>>(rows: &Vec<JsonValue>, read: &R) -> (r:
    Result<Vec<Candle>, RestError>)
    requires
        reads(*read),
    ensures
        rows_read(rows@, *read, r),
{
    let mut candles: Vec<Candle> = Vec::new();
    let mut i: usize = 0;
    while i < rows.len()
        invariant
            i <= rows@.len(),
            reads(*read),
            candles@.len() == i,
            forall|j: int|
                0 <= j < i ==> row_read(
                    #[trigger] rows@[j],
                    *read,
                    Ok::<Candle, RestError>(candles@[j]),
                ),
        decreases rows@.len() - i,
    {
        match parse_rest_kline_row(&rows[i], read) {
            Ok(candle) => {
                candles.push(candle);
            },
            Err(error) => {
                assert forall|j: int| 0 <= j < i implies row_accepted(
                    #[trigger] rows@[j],
                    *read,
                ) by {
                    assert(row_read(rows@[j], *read, Ok::<Candle, RestError>(candles@[j])));
                }
                assert(first_refused(rows@, *read, i as int, error));
                return Err(error);
            },
        }
        i += 1;
    }
    Ok(candles)
}

/// Reads the candles of an answer: an array of rows. `read` makes numbers of
/// texts. The first row that is no candle decides the error.
pub fn parse_rest_klines<R: Fn(&String) -> Result<Double, String>>(payload: &JsonValue, read: &R) -> (r:
    Result<Vec<Candle>, RestError>)
    requires
        reads(*read),
    ensures
        match *payload {
            JsonValue::Array(rows) => rows_read(rows@, *read, r),
            _ => r matches Err(RestError::InvalidPayload),
        },
{
    match payload {
        JsonValue::Array(rows) => parse_rows(rows, read),
        _ => Err(RestError::InvalidPayload),
    }
}

// ---------------------------------------------------------------------------
// Windows, requests and gaps, told by the times in them.
// ---------------------------------------------------------------------------

/// A look back ends with the bucket before now and holds as many candles as
/// were asked for, at least one.
pub proof fn lookbacks_hold_the_bars_asked_for(
    interval: Interval,
    lookback_bars: u32,
    now_ms: int,
    window: (int, int),
)
    requires
        interval.millis() > 0,
        window == lookback(interval, lookback_bars, now_ms),
    ensures
        window.1 + interval.millis() == interval.bucket(now_ms),
        (window.1 - window.0) % interval.millis() == 0,
        lookback_bars >= 1 ==> (window.1 - window.0) / interval.millis() + 1 == lookback_bars,
        lookback_bars == 0 ==> window.0 == window.1,
        lookback_bars >= 1 ==> bars_in(interval, window.0, window.1) == lookback_bars,
{
    let step = interval.millis();
    let bars: int = if lookback_bars < 1 {
        1
    } else {
        lookback_bars as int
    };
    vstd::arithmetic::mul::lemma_mul_nonnegative(bars - 1, step);
    vstd::arithmetic::div_mod::lemma_div_multiples_vanish(bars - 1, step);
    vstd::arithmetic::div_mod::lemma_mod_multiples_basic(bars - 1, step);
    vstd::arithmetic::mul::lemma_mul_is_commutative(bars - 1, step);
}

/// One more candle to look back on moves the start of the window by one length
/// and leaves its end.
pub proof fn lookbacks_grow_by_one_bar(interval: Interval, lookback_bars: u32, now_ms: int)
    requires
        1 <= lookback_bars < u32::MAX,
    ensures
        ({
            let window = lookback(interval, lookback_bars, now_ms);
            let wider = lookback(interval, (lookback_bars + 1) as u32, now_ms);
            wider.0 + interval.millis() == window.0 && wider.1 == window.1
        }),
{
    vstd::arithmetic::mul::lemma_mul_is_distributive_add_other_way(
        interval.millis(),
        lookback_bars - 1,
        1,
    );
}

/// The candles of a window are as many as lengths fit into it, and one.
pub proof fn bars_are_counted_by_the_length(interval: Interval, start: int, end: int)
    requires
        interval.millis() > 0,
        start <= end,
    ensures
        ({
            let bars = bars_in(interval, start, end);
            (bars - 1) * interval.millis() <= end - start < bars * interval.millis()
        }),
{
    let step = interval.millis();
    let q = (end - start) / step;
    vstd::arithmetic::div_mod::lemma_fundamental_div_mod(end - start, step);
    vstd::arithmetic::div_mod::lemma_mod_bound(end - start, step);
    vstd::arithmetic::mul::lemma_mul_is_commutative(step, q);
    vstd::arithmetic::mul::lemma_mul_is_distributive_add_other_way(step, q, 1);
}

/// The request at the start asks for three candles: the two before the bucket
/// of now and the one of now, to its last millisecond.
pub proof fn refreshes_ask_for_three_candles(interval: Interval, now_ms: int)
    requires
        refresh_fits(interval, now_ms),
        interval.millis() > 0,
        interval.bucket(now_ms) <= i64::MAX,
    ensures
        ({
            let page = refresh_request(interval, now_ms);
            &&& page.start_time + 2 * interval.millis() == interval.bucket(now_ms)
            &&& page.end_time + 1 == interval.bucket(now_ms) + interval.millis()
            &&& page.limit == 3
            &&& page.end_time + 1 - page.start_time == page.limit * interval.millis()
        }),
{
}

/// Each page asks for as many candles as lie between its times; all but the
/// last are full, with fifteen hundred.
pub proof fn pages_ask_for_what_they_span(range: MissingKlineRange, pages: Seq<RestKlinePage>)
    requires
        range.countable(),
        pages.len() == page_count(range.count() as int),
        forall|i: int| 0 <= i < pages.len() ==> page_of(range, i, #[trigger] pages[i]),
    ensures
        forall|i: int|
            0 <= i < pages.len() ==> (#[trigger] pages[i]).end_time + 1 - pages[i].start_time
                == pages[i].limit * range.interval_ms,
        forall|i: int| 0 <= i < pages.len() - 1 ==> (#[trigger] pages[i]).limit == 1500,
        forall|i: int| 0 <= i < pages.len() ==> 1 <= (#[trigger] pages[i]).limit <= 1500,
        pages.len() == 0 <==> range.count() == 0,
        pages.len() > 0 ==> 1500 * (pages.len() - 1) + pages.last().limit == range.count(),
{
    assert forall|i: int| 0 <= i < pages.len() implies (#[trigger] pages[i]).end_time + 1
        - pages[i].start_time == pages[i].limit * range.interval_ms by {
        vstd::arithmetic::mul::lemma_mul_is_distributive_add_other_way(
            range.interval_ms as int,
            i * MAX_KLINE_LIMIT,
            pages[i].limit as int,
        );
    }
    if pages.len() > 0 {
        assert(page_of(range, pages.len() - 1, pages[pages.len() - 1]));
    }
}

/// A range that goes forward in time counts the candles from its first to its
/// last, both with it.
pub proof fn ranges_count_both_ends(range: MissingKlineRange)
    requires
        range.interval_ms > 0,
        range.start_open_time <= range.end_open_time,
        (range.end_open_time - range.start_open_time) / (range.interval_ms as int) < u32::MAX,
    ensures
        (range.count() - 1) * range.interval_ms <= range.end_open_time - range.start_open_time,
        range.end_open_time - range.start_open_time < range.count() * range.interval_ms,
{
    let step = range.interval_ms as int;
    let distance = range.end_open_time - range.start_open_time;
    let q = distance / step;
    vstd::arithmetic::div_mod::lemma_fundamental_div_mod(distance, step);
    vstd::arithmetic::div_mod::lemma_mod_bound(distance, step);
    vstd::arithmetic::mul::lemma_mul_is_commutative(step, q);
    vstd::arithmetic::mul::lemma_mul_is_distributive_add_other_way(step, q, 1);
    vstd::arithmetic::div_mod::lemma_div_pos_is_pos(distance, step);
}

/// A time of the window, a whole number of lengths from its start, lies in one
/// of the ranges exactly if there is no candle for it.
pub proof fn ranges_hold_the_missing_times(
    start: int,
    end: int,
    interval_ms: int,
    existing: Seq<i64>,
    ranges: Seq<MissingKlineRange>,
    k: int,
)
    requires
        interval_ms > 0,
        missing_ranges(start, end, interval_ms, existing, ranges),
        0 <= k,
        start + k * interval_ms <= end,
    ensures
        (exists|i: int|
            0 <= i < ranges.len() && (#[trigger] ranges[i]).start_open_time <= start + k
                * interval_ms <= ranges[i].end_open_time) <==> !existing.contains(
            (start + k * interval_ms) as i64,
        ),
{
    let t = start + k * interval_ms;
    vstd::arithmetic::mul::lemma_mul_nonnegative(k, interval_ms);
    vstd::arithmetic::div_mod::lemma_mod_multiples_basic(k, interval_ms);
    assert(expected_time(start, end, interval_ms, t));
    if !existing.contains(t as i64) {
        assert(missing_time(start, end, interval_ms, existing, t));
        assert(in_ranges(ranges, t));
    }
    if exists|i: int|
        0 <= i < ranges.len() && (#[trigger] ranges[i]).start_open_time <= t
            <= ranges[i].end_open_time {
        let i = choose|i: int|
            0 <= i < ranges.len() && (#[trigger] ranges[i]).start_open_time <= t
                <= ranges[i].end_open_time;
        assert(missing_run(start, end, interval_ms, existing, ranges[i]));
    }
}

/// The ranges lie in the window, in the order of time. Each starts at a time
/// that has no candle and is a whole number of lengths from the window's
/// start, and has that length noted. Between two of them stands a candle.
pub proof fn ranges_are_apart(
    start: int,
    end: int,
    interval_ms: int,
    existing: Seq<i64>,
    ranges: Seq<MissingKlineRange>,
)
    requires
        interval_ms > 0,
        missing_ranges(start, end, interval_ms, existing, ranges),
    ensures
        forall|i: int|
            #![trigger ranges[i]]
            0 <= i < ranges.len() ==> {
                &&& start <= ranges[i].start_open_time <= ranges[i].end_open_time <= end
                &&& (ranges[i].start_open_time - start) % interval_ms == 0
                &&& !existing.contains(ranges[i].start_open_time)
                &&& ranges[i].interval_ms == interval_ms
            },
        forall|i: int, j: int|
            0 <= i && j == i + 1 && j < ranges.len() ==> {
                &&& (#[trigger] ranges[i]).end_open_time + interval_ms < (
                #[trigger] ranges[j]).start_open_time
                &&& existing.contains((ranges[i].end_open_time + interval_ms) as i64)
                &&& existing.contains((ranges[j].start_open_time - interval_ms) as i64)
            },
{
    assert forall|i: int| #![trigger ranges[i]] 0 <= i < ranges.len() implies {
        &&& start <= ranges[i].start_open_time <= ranges[i].end_open_time <= end
        &&& (ranges[i].start_open_time - start) % interval_ms == 0
        &&& !existing.contains(ranges[i].start_open_time)
        &&& ranges[i].interval_ms == interval_ms
    } by {
        assert(missing_run(start, end, interval_ms, existing, ranges[i]));
        let last = ranges[i].end_open_time as int;
        if last != end {
            assert(expected_time(start, end, interval_ms, last));
        }
    }
    assert forall|i: int, j: int| 0 <= i && j == i + 1 && j < ranges.len() implies {
        &&& (#[trigger] ranges[i]).end_open_time + interval_ms < (
        #[trigger] ranges[j]).start_open_time
        &&& existing.contains((ranges[i].end_open_time + interval_ms) as i64)
        &&& existing.contains((ranges[j].start_open_time - interval_ms) as i64)
    } by {
        assert(missing_run(start, end, interval_ms, existing, ranges[i]));
        assert(missing_run(start, end, interval_ms, existing, ranges[j]));
        let last = ranges[i].end_open_time as int;
        let first = ranges[j].start_open_time as int;
        assert(last < first <= end);
        assert(expected_time(start, end, interval_ms, last + interval_ms));
        assert(!missing_time(start, end, interval_ms, existing, last + interval_ms));
        // The next range starts on the grid, at or past the time after the
        // last one, and not at that time itself, which has a candle.
        vstd::arithmetic::div_mod::lemma_fundamental_div_mod(first - start, interval_ms);
        vstd::arithmetic::div_mod::lemma_fundamental_div_mod(last - start, interval_ms);
        let p = (first - start) / interval_ms;
        let q = (last - start) / interval_ms;
        assert(first == start + interval_ms * p);
        assert(last == start + interval_ms * q);
        assert(p > q) by (nonlinear_arith)
            requires
                interval_ms * p > interval_ms * q,
                interval_ms > 0,
        ;
        assert(interval_ms * p >= interval_ms * q + interval_ms) by (nonlinear_arith)
            requires
                p >= q + 1,
                interval_ms > 0,
        ;
        assert(first != last + interval_ms);
        assert(first > start);
        assert(!missing_time(start, end, interval_ms, existing, first - interval_ms));
        vstd::arithmetic::div_mod::lemma_mod_multiples_basic(p - 1, interval_ms);
        vstd::arithmetic::mul::lemma_mul_is_commutative(p - 1, interval_ms);
        vstd::arithmetic::mul::lemma_mul_is_distributive_sub(interval_ms, p, 1);
        assert(first - interval_ms - start == (p - 1) * interval_ms);
        assert(expected_time(start, end, interval_ms, first - interval_ms));
    }
}

/// A window with every candle has no gap, and one with none is one gap.
pub proof fn gaps_are_none_or_all(
    start: i64,
    end: i64,
    interval_ms: i64,
    existing: Seq<i64>,
    ranges: Seq<MissingKlineRange>,
)
    requires
        interval_ms > 0,
        start <= end,
        missing_ranges(start as int, end as int, interval_ms as int, existing, ranges),
    ensures
        (forall|t: i64| start <= t <= end ==> #[trigger] existing.contains(t)) ==> ranges.len()
            == 0,
        existing.len() == 0 ==> ranges == seq![
            MissingKlineRange { start_open_time: start, end_open_time: end, interval_ms },
        ],
{
    let s = start as int;
    let e = end as int;
    let step = interval_ms as int;
    if forall|t: i64| start <= t <= end ==> #[trigger] existing.contains(t) {
        if ranges.len() > 0 {
            assert(missing_run(s, e, step, existing, ranges[0]));
            assert(existing.contains(ranges[0].start_open_time));
        }
    }
    if existing.len() == 0 {
        vstd::arithmetic::div_mod::lemma_mod_multiples_basic(0, step);
        assert(expected_time(s, e, step, s));
        assert(missing_time(s, e, step, existing, s));
        assert(in_ranges(ranges, s));
        let i = choose|i: int|
            0 <= i < ranges.len() && (#[trigger] ranges[i]).start_open_time <= s
                <= ranges[i].end_open_time;
        assert(missing_run(s, e, step, existing, ranges[i]));
        assert forall|j: int| 0 <= j < ranges.len() implies (#[trigger] ranges[j]).end_open_time
            == end by {
            assert(missing_run(s, e, step, existing, ranges[j]));
        }
        assert forall|j: int| #![trigger ranges[j]] 0 <= j < ranges.len() implies j == i by {
            if j < i {
                assert(ranges[j].end_open_time < ranges[i].start_open_time);
            } else if i < j {
                assert(ranges[i].end_open_time < ranges[j].start_open_time);
                assert(missing_run(s, e, step, existing, ranges[j]));
            }
        }
        assert(ranges.len() == 1) by {
            if ranges.len() > 1 {
                assert(ranges[0].end_open_time < ranges[1].start_open_time);
            }
        }
        assert(ranges =~= seq![
            MissingKlineRange { start_open_time: start, end_open_time: end, interval_ms },
        ]);
    }
}

/// The candles that are not stored yet are those of the candles whose time no
/// stored one has, in their order.
pub proof fn stored_candles_are_left_out(candles: Seq<Candle>, times: Seq<i64>)
    ensures
        forall|candle: Candle| #[trigger]
            without_times(candles, times).contains(candle) <==> candles.contains(candle)
                && !times.contains(candle.open_time),
        (forall|i: int| 0 <= i < candles.len() ==> !times.contains(#[trigger] candles[i].open_time))
            ==> without_times(candles, times) == candles,
        forall|more: Seq<Candle>| #[trigger]
            without_times(candles + more, times) == without_times(candles, times) + without_times(
                more,
                times,
            ),
{
    let keep = |candle: Candle| !times.contains(candle.open_time);
    assert forall|candle: Candle| #[trigger]
        without_times(candles, times).contains(candle) <==> candles.contains(candle)
            && !times.contains(candle.open_time) by {
        let kept = candles.filter(keep);
        if candles.contains(candle) && keep(candle) {
            let i = choose|i: int| 0 <= i < candles.len() && candles[i] == candle;
            candles.lemma_filter_contains(keep, i);
        }
        if kept.contains(candle) {
            let i = choose|i: int| 0 <= i < kept.len() && kept[i] == candle;
            candles.lemma_filter_pred(keep, i);
            candles.lemma_filter_contains_rev(keep, candle);
        }
    }
    if forall|i: int| 0 <= i < candles.len() ==> !times.contains(#[trigger] candles[i].open_time) {
        all_are_kept(candles, times);
    }
    assert forall|more: Seq<Candle>| #[trigger]
        without_times(candles + more, times) == without_times(candles, times) + without_times(
            more,
            times,
        ) by {
        Seq::filter_distributes_over_add(candles, more, keep);
    }
}

proof fn all_are_kept(candles: Seq<Candle>, times: Seq<i64>)
    requires
        forall|i: int| 0 <= i < candles.len() ==> !times.contains(#[trigger] candles[i].open_time),
    ensures
        without_times(candles, times) == candles,
    decreases candles.len(),
{
    reveal(Seq::filter);
    if candles.len() > 0 {
        let fewer = candles.drop_last();
        assert forall|i: int| 0 <= i < fewer.len() implies !times.contains(
            #[trigger] fewer[i].open_time,
        ) by {
            assert(fewer[i] == candles[i]);
        }
        all_are_kept(fewer, times);
        assert(!times.contains(candles[candles.len() - 1].open_time));
        assert(without_times(candles, times) =~= candles);
    } else {
        assert(without_times(candles, times) =~= candles);
    }
}

// ---------------------------------------------------------------------------
// Candles that are built from shorter ones.
// ---------------------------------------------------------------------------

/// `sums` are the sums in turn of `parts`, each as `calc` gives it.
pub open spec fn summed_in_turn<F: Fn(Calc) -> Double>(
    calc: F,
    parts: Seq<Double>,
    sums: Seq<Double>,
) -> bool {
    &&& sums.len() == parts.len()
    &&& parts.len() > 0 ==> sums[0] == parts[0]
    &&& forall|i: int, j: int|
        0 <= i && j == i + 1 && j < sums.len() ==> call_ensures(
            calc,
            (Calc::Add(#[trigger] sums[i], parts[j]),),
            #[trigger] sums[j],
        )
}

/// `counts` are the trades of the rows, counted in turn.
pub open spec fn trades_in_turn(rows: Seq<Candle>, counts: Seq<int>) -> bool {
    &&& counts.len() == rows.len() + 1
    &&& counts[0] == 0
    &&& forall|i: int, j: int|
        0 <= i && j == i + 1 && j < counts.len() ==> #[trigger] counts[j] == #[trigger] counts[i]
            + rows[i].trade_count
}

proof fn trades_are_counted_in_turn(rows: Seq<Candle>) -> (counts: Seq<int>)
    ensures
        trades_in_turn(rows, counts),
        counts.last() == trades_of(rows),
    decreases rows.len(),
{
    if rows.len() == 0 {
        seq![0int]
    } else {
        let earlier = trades_are_counted_in_turn(rows.drop_last());
        let counts = earlier.push(trades_of(rows));
        assert forall|i: int, j: int| 0 <= i && j == i + 1 && j < counts.len() implies #[trigger] counts[j]
            == #[trigger] counts[i] + rows[i].trade_count by {
            if j < earlier.len() {
                assert(earlier[j] == earlier[i] + rows.drop_last()[i].trade_count);
            }
        }
        counts
    }
}

proof fn highest_and_lowest(rows: Seq<Candle>)
    requires
        rows.len() > 0,
    ensures
        exists|i: int| 0 <= i < rows.len() && highest(rows) == (#[trigger] rows[i]).high,
        exists|i: int| 0 <= i < rows.len() && lowest(rows) == (#[trigger] rows[i]).low,
        forall|i: int| 0 <= i < rows.len() ==> !highest(rows).lt((#[trigger] rows[i]).high),
        forall|i: int| 0 <= i < rows.len() ==> !(#[trigger] rows[i]).low.lt(lowest(rows)),
        highest(rows).nan() ==> forall|i: int|
            0 <= i < rows.len() ==> (#[trigger] rows[i]).high.nan(),
        lowest(rows).nan() ==> forall|i: int|
            0 <= i < rows.len() ==> (#[trigger] rows[i]).low.nan(),
    decreases rows.len(),
{
    if rows.len() == 1 {
        assert(highest(rows) == rows[0].high);
        assert(lowest(rows) == rows[0].low);
    } else {
        let fewer = rows.drop_last();
        highest_and_lowest(fewer);
        let n = rows.len() - 1;
        let a = choose|i: int| 0 <= i < fewer.len() && highest(fewer) == (#[trigger] fewer[i]).high;
        let b = choose|i: int| 0 <= i < fewer.len() && lowest(fewer) == (#[trigger] fewer[i]).low;
        assert(fewer[a] == rows[a] && fewer[b] == rows[b]);
        assert(highest(rows) == rows[a].high || highest(rows) == rows[n].high);
        assert(lowest(rows) == rows[b].low || lowest(rows) == rows[n].low);
        assert forall|i: int| 0 <= i < rows.len() implies !highest(rows).lt(
            (#[trigger] rows[i]).high,
        ) && !rows[i].low.lt(lowest(rows)) by {
            if i < n {
                assert(fewer[i] == rows[i]);
            }
        }
        assert forall|i: int| 0 <= i < rows.len() implies (highest(rows).nan() ==> (
        #[trigger] rows[i]).high.nan()) && (lowest(rows).nan() ==> rows[i].low.nan()) by {
            if i < n {
                assert(fewer[i] == rows[i]);
            }
        }
    }
}

proof fn volumes_so_far<F: Fn(Calc) -> Double>(
    states: Seq<Aggregator>,
    rows: Seq<Candle>,
    target: Interval,
    calc: F,
    k: int,
) -> (r: (Seq<Double>, Seq<Double>))
    requires
        rolls(states, rows, target, calc),
        full_rows_fit(rows, target),
        target.millis() > 0,
        forall|i: int|
            0 <= i < rows.len() ==> target.bucket((#[trigger] rows[i]).open_time as int)
                == rows[0].open_time,
        0 < k <= rows.len(),
    ensures
        summed_in_turn(calc, Seq::new(k as nat, |i: int| rows[i].volume), r.0),
        summed_in_turn(calc, Seq::new(k as nat, |i: int| rows[i].quote_volume), r.1),
        states[k].open_candle() matches Some(current) && {
            let end = rows[0].open_time + target.millis() - 1;
            &&& current.volume == r.0.last()
            &&& current.quote_volume == r.1.last()
            &&& forall|i: int| 0 <= i < k ==> (#[trigger] rows[i]).close_time <= current.close_time
            &&& current.close_time == end || exists|i: int|
                0 <= i < k && (#[trigger] rows[i]).close_time == current.close_time
        },
    decreases k,
{
    let row = rows[k - 1];
    rolled_so_far(states, rows, target, calc, k);
    assert(roll_step(states[k - 1], row, calc, states[k]));
    assert(target.bucket(row.open_time as int) == rows[0].open_time);
    let end = rows[0].open_time + target.millis() - 1;
    let after = states[k].open_candle()->0;
    if k == 1 {
        assert(states[0].open_candle() is None);
        assert(after.close_time == end || after.close_time == rows[0].close_time);
        (seq![row.volume], seq![row.quote_volume])
    } else {
        rolled_so_far(states, rows, target, calc, k - 1);
        let (volumes, quotes) = volumes_so_far(states, rows, target, calc, k - 1);
        let before = states[k - 1].open_candle()->0;
        assert(rows.take(k - 1)[0] == rows[0]);
        assert(before.open_time == rows[0].open_time);
        assert(before.merged(states[k - 1].placed(row), calc, after));
        let v = volumes.push(after.volume);
        let q = quotes.push(after.quote_volume);
        let vp = Seq::new(k as nat, |i: int| rows[i].volume);
        let qp = Seq::new(k as nat, |i: int| rows[i].quote_volume);
        assert forall|i: int, j: int| 0 <= i && j == i + 1 && j < v.len() implies call_ensures(
            calc,
            (Calc::Add(#[trigger] v[i], vp[j]),),
            #[trigger] v[j],
        ) by {
            if j < volumes.len() {
                assert(volumes[i] == v[i] && volumes[j] == v[j]);
            }
        }
        assert forall|i: int, j: int| 0 <= i && j == i + 1 && j < q.len() implies call_ensures(
            calc,
            (Calc::Add(#[trigger] q[i], qp[j]),),
            #[trigger] q[j],
        ) by {
            if j < quotes.len() {
                assert(quotes[i] == q[i] && quotes[j] == q[j]);
            }
        }
        assert(after.close_time == before.close_time || after.close_time == end
            || after.close_time == row.close_time);
        (v, q)
    }
}

/// The candle of a full bucket opens with its first row and closes with its
/// last. Its high is the high of one row, and none is higher; so with its low.
/// Its trades and volumes are those of all rows, added in turn. It ends with
/// the bucket, or with the row that ends last.
pub proof fn complete_candles_add_up_their_rows<F: Fn(Calc) -> Double>(
    rows: Seq<Candle>,
    base_ms: int,
    target: Interval,
    calc: F,
    candle: Candle,
)
    requires
        base_ms > 0,
        target.millis() > 0,
        whole_buckets(rows, target),
        bucket_rows_fit(rows, base_ms, target),
        bucket_result(rows, base_ms, target, calc, Some(candle)),
    ensures
        rows.len() > 0,
        candle.is_closed,
        candle.open_time == target.bucket(rows[0].open_time as int),
        candle.open == rows[0].open && candle.close == rows.last().close,
        exists|i: int| 0 <= i < rows.len() && candle.high == (#[trigger] rows[i]).high,
        exists|i: int| 0 <= i < rows.len() && candle.low == (#[trigger] rows[i]).low,
        forall|i: int| 0 <= i < rows.len() ==> !candle.high.lt((#[trigger] rows[i]).high),
        forall|i: int| 0 <= i < rows.len() ==> !(#[trigger] rows[i]).low.lt(candle.low),
        exists|counts: Seq<int>| #[trigger]
            trades_in_turn(rows, counts) && candle.trade_count == counts.last(),
        exists|parts: Seq<Double>, sums: Seq<Double>| #[trigger]
            summed_in_turn(calc, parts, sums) && candle.volume == sums.last() && parts.len()
                == rows.len() && forall|i: int|
                0 <= i < rows.len() ==> #[trigger] parts[i] == rows[i].volume,
        exists|parts: Seq<Double>, sums: Seq<Double>| #[trigger]
            summed_in_turn(calc, parts, sums) && candle.quote_volume == sums.last() && parts.len()
                == rows.len() && forall|i: int|
                0 <= i < rows.len() ==> #[trigger] parts[i] == rows[i].quote_volume,
        candle.close_time >= candle.open_time + target.millis() - 1,
        forall|i: int| 0 <= i < rows.len() ==> (#[trigger] rows[i]).close_time <= candle.close_time,
        candle.close_time == candle.open_time + target.millis() - 1 || exists|i: int|
            0 <= i < rows.len() && (#[trigger] rows[i]).close_time == candle.close_time,
{
    complete_candles_stand_for_their_rows(rows, base_ms, target, calc, candle);
    full_buckets_hold_all_rows(rows, base_ms, target);
    highest_and_lowest(rows);
    let counts = trades_are_counted_in_turn(rows);
    assert(trades_in_turn(rows, counts));
    let states = choose|states: Seq<Aggregator>|
        {
            &&& #[trigger] rolls(states, rows, target, calc)
            &&& states.last().open_candle() matches Some(current) && candle == current.finalized()
        };
    let n = rows.len() as int;
    let (volumes, quotes) = volumes_so_far(states, rows, target, calc, n);
    assert(states.last() == states[n]);
    let vp = Seq::new(n as nat, |i: int| rows[i].volume);
    let qp = Seq::new(n as nat, |i: int| rows[i].quote_volume);
    assert(summed_in_turn(calc, vp, volumes));
    assert(summed_in_turn(calc, qp, quotes));
}

/// Rows make a candle exactly if they are all the rows of one bucket: the first
/// opens the bucket, each next one follows at the base's distance, and together
/// they are as long as the bucket.
pub proof fn full_buckets_make_a_candle<F: Fn(Calc) -> Double>(
    rows: Seq<Candle>,
    base_ms: int,
    target: Interval,
    calc: F,
    r: Option<Candle>,
)
    requires
        base_ms > 0,
        target.millis() > 0,
        target.millis() % base_ms == 0,
        whole_buckets(rows, target),
        bucket_result(rows, base_ms, target, calc, r),
    ensures
        r is Some <==> {
            &&& rows.len() > 0
            &&& rows.len() * base_ms == target.millis()
            &&& rows[0].open_time == target.bucket(rows[0].open_time as int)
            &&& forall|i: int, j: int|
                0 <= i && j == i + 1 && j < rows.len() ==> (#[trigger] rows[j]).open_time - (
                #[trigger] rows[i]).open_time == base_ms
        },
{
    let length = target.millis();
    vstd::arithmetic::div_mod::lemma_fundamental_div_mod(length, base_ms);
    vstd::arithmetic::mul::lemma_mul_is_commutative(base_ms, length / base_ms);
    assert(rows.len() * base_ms == length <==> rows.len() == length / base_ms) by (nonlinear_arith)
        requires
            (length / base_ms) * base_ms == length,
            base_ms > 0,
    ;
    if fills_bucket(rows, base_ms, target) {
        full_buckets_hold_all_rows(rows, base_ms, target);
    }
}

/// The group has the rows from one cut up to the next.
pub open spec fn group_between(
    rows: Seq<Candle>,
    groups: Seq<Seq<Candle>>,
    cuts: Seq<int>,
    g: int,
) -> bool {
    &&& 0 <= cuts[g] < cuts[g + 1] <= rows.len()
    &&& groups[g] == rows.subrange(cuts[g], cuts[g + 1])
}

/// `cuts` are the places at which the rows are cut into the groups.
pub open spec fn cut_at(rows: Seq<Candle>, groups: Seq<Seq<Candle>>, cuts: Seq<int>) -> bool {
    &&& cuts.len() == groups.len() + 1
    &&& cuts[0] == 0
    &&& cuts.last() == rows.len()
    &&& forall|g: int|
        0 <= g < groups.len() ==> #[trigger] group_between(rows, groups, cuts, g)
}

proof fn cut_in_order(rows: Seq<Candle>, groups: Seq<Seq<Candle>>, cuts: Seq<int>, g: int)
    requires
        cut_at(rows, groups, cuts),
        0 <= g < groups.len(),
    ensures
        0 <= cuts[g] < cuts[g + 1] <= rows.len(),
        groups[g] == rows.subrange(cuts[g], cuts[g + 1]),
{
    assert(group_between(rows, groups, cuts, g));
}

/// The rows are cut into groups that follow each other and leave nothing out.
/// All rows of a group fall into one bucket, and a new group starts only where
/// the bucket changes.
pub proof fn rows_are_cut_where_the_bucket_changes(rows: Seq<Candle>, target: Interval) -> (cuts:
    Seq<int>)
    ensures
        cut_at(rows, bucket_groups(rows, target), cuts),
        forall|g: int, k: int|
            #![trigger bucket_groups(rows, target)[g][k]]
            0 <= g < bucket_groups(rows, target).len() && 0 <= k < bucket_groups(
                rows,
                target,
            )[g].len() ==> target.bucket(bucket_groups(rows, target)[g][k].open_time as int)
                == target.bucket(bucket_groups(rows, target)[g][0].open_time as int),
        forall|g: int|
            0 < g < cuts.len() - 1 ==> target.bucket(rows[#[trigger] cuts[g] - 1].open_time as int)
                != target.bucket(rows[cuts[g]].open_time as int),
    decreases rows.len(),
{
    let groups = bucket_groups(rows, target);
    if rows.len() == 0 {
        let cuts = seq![0int];
        assert(groups.len() == 0);
        assert(cuts.len() == 1 && cuts[0] == 0 && cuts.last() == 0);
        assert(cut_at(rows, groups, cuts));
        cuts
    } else {
        let fewer = rows.drop_last();
        let old_groups = bucket_groups(fewer, target);
        let old_cuts = rows_are_cut_where_the_bucket_changes(fewer, target);
        let row = rows.last();
        let n = old_groups.len() as int;
        if n > 0 {
            cut_in_order(fewer, old_groups, old_cuts, n - 1);
            assert(old_groups.last().last() == fewer.last());
            assert(old_groups[n - 1][old_groups[n - 1].len() - 1] == fewer.last());
        }
        if n > 0 && target.bucket(old_groups.last().last().open_time as int) == target.bucket(
            row.open_time as int,
        ) {
            let cuts = old_cuts.update(n, rows.len() as int);
            assert(cuts.len() == groups.len() + 1);
            assert(cuts[0] == old_cuts[0]);
            assert(cuts.last() == rows.len());
            assert forall|g: int| 0 <= g < groups.len() implies #[trigger] group_between(
                rows,
                groups,
                cuts,
                g,
            ) by {
                cut_in_order(fewer, old_groups, old_cuts, g);
                if g == n - 1 {
                    assert(groups[g] =~= rows.subrange(cuts[g], cuts[g + 1]));
                } else {
                    assert(groups[g] == old_groups[g]);
                    assert(fewer.subrange(cuts[g], cuts[g + 1]) =~= rows.subrange(cuts[g], cuts[g + 1]));
                }
            }
            assert forall|g: int, k: int|
                #![trigger groups[g][k]]
                0 <= g < groups.len() && 0 <= k < groups[g].len() implies target.bucket(
                groups[g][k].open_time as int,
            ) == target.bucket(groups[g][0].open_time as int) by {
                if g < n - 1 {
                    assert(old_groups[g][k] == groups[g][k]);
                } else {
                    assert(old_groups[g].len() > 0);
                    assert(old_groups[g][0] == groups[g][0]);
                    if k < old_groups[g].len() {
                        assert(old_groups[g][k] == groups[g][k]);
                    } else {
                        assert(groups[g][k] == row);
                    }
                }
            }
            assert forall|g: int| 0 < g < cuts.len() - 1 implies target.bucket(
                rows[#[trigger] cuts[g] - 1].open_time as int,
            ) != target.bucket(rows[cuts[g]].open_time as int) by {
                assert(old_cuts[g] == cuts[g]);
                cut_in_order(fewer, old_groups, old_cuts, g);
                cut_in_order(fewer, old_groups, old_cuts, g - 1);
                assert(fewer[old_cuts[g] - 1] == rows[cuts[g] - 1]);
                assert(fewer[old_cuts[g]] == rows[cuts[g]]);
            }
            cuts
        } else {
            let cuts = old_cuts.push(rows.len() as int);
            assert(cuts.len() == groups.len() + 1);
            assert(cuts[0] == old_cuts[0]);
            assert(cuts.last() == rows.len());
            assert(old_cuts[n] == fewer.len());
            assert forall|g: int| 0 <= g < groups.len() implies #[trigger] group_between(
                rows,
                groups,
                cuts,
                g,
            ) by {
                if g == n {
                    assert(groups[g] =~= rows.subrange(cuts[g], cuts[g + 1]));
                } else {
                    cut_in_order(fewer, old_groups, old_cuts, g);
                    assert(groups[g] == old_groups[g]);
                    assert(fewer.subrange(cuts[g], cuts[g + 1]) =~= rows.subrange(cuts[g], cuts[g + 1]));
                }
            }
            assert forall|g: int, k: int|
                #![trigger groups[g][k]]
                0 <= g < groups.len() && 0 <= k < groups[g].len() implies target.bucket(
                groups[g][k].open_time as int,
            ) == target.bucket(groups[g][0].open_time as int) by {
                if g < n {
                    assert(old_groups[g][k] == groups[g][k]);
                    assert(old_groups[g][0] == groups[g][0]);
                }
            }
            assert forall|g: int| 0 < g < cuts.len() - 1 implies target.bucket(
                rows[#[trigger] cuts[g] - 1].open_time as int,
            ) != target.bucket(rows[cuts[g]].open_time as int) by {
                if g < n {
                    assert(old_cuts[g] == cuts[g]);
                    cut_in_order(fewer, old_groups, old_cuts, g);
                    cut_in_order(fewer, old_groups, old_cuts, g - 1);
                    assert(fewer[old_cuts[g] - 1] == rows[cuts[g] - 1]);
                    assert(fewer[old_cuts[g]] == rows[cuts[g]]);
                } else {
                    assert(rows[cuts[g]] == row);
                    assert(rows[cuts[g] - 1] == fewer.last());
                }
            }
            cuts
        }
    }
}

/// `places` are the numbers of the groups that made a candle, in order.
pub open spec fn made_at(made: Seq<Option<Candle>>, output: Seq<Candle>, places: Seq<int>) -> bool {
    &&& places.len() == output.len()
    &&& forall|k: int|
        #![trigger places[k]]
        0 <= k < places.len() ==> {
            &&& 0 <= places[k] < made.len()
            &&& made[places[k]] == Some(output[k])
        }
    &&& forall|k: int, m: int|
        0 <= k < m < places.len() ==> #[trigger] places[k] < #[trigger] places[m]
    &&& forall|g: int|
        0 <= g < made.len() && (#[trigger] made[g]) is Some ==> places.contains(g)
}

proof fn present_candles_have_their_place(made: Seq<Option<Candle>>) -> (places: Seq<int>)
    ensures
        made_at(made, present(made), places),
    decreases made.len(),
{
    if made.len() == 0 {
        Seq::empty()
    } else {
        let fewer = made.drop_last();
        let earlier = present_candles_have_their_place(fewer);
        let n = made.len() - 1;
        let places = if made[n] is Some {
            earlier.push(n)
        } else {
            earlier
        };
        let output = present(made);
        assert forall|k: int| #![trigger places[k]] 0 <= k < places.len() implies {
            &&& 0 <= places[k] < made.len()
            &&& made[places[k]] == Some(output[k])
        } by {
            if k < earlier.len() {
                assert(earlier[k] == places[k]);
                assert(fewer[earlier[k]] == made[places[k]]);
            }
        }
        assert forall|g: int|
            0 <= g < made.len() && (#[trigger] made[g]) is Some implies places.contains(g) by {
            if g < n {
                assert(fewer[g] is Some);
                let k = choose|k: int| 0 <= k < earlier.len() && earlier[k] == g;
                assert(places[k] == g);
            } else {
                assert(places[places.len() - 1] == n);
            }
        }
        places
    }
}

/// The output holds one candle for each group that makes one, in the order of
/// the groups, and nothing else.
pub proof fn output_has_one_candle_for_each_full_group<F: Fn(Calc) -> Double>(
    groups: Seq<Seq<Candle>>,
    base_ms: int,
    target: Interval,
    calc: F,
    output: Seq<Candle>,
)
    requires
        complete_groups(groups, base_ms, target, calc, output),
    ensures
        exists|made: Seq<Option<Candle>>, places: Seq<int>| #[trigger]
            made_at(made, output, places) && made.len() == groups.len() && forall|g: int|
                0 <= g < groups.len() ==> bucket_result(
                    #[trigger] groups[g],
                    base_ms,
                    target,
                    calc,
                    made[g],
                ),
{
    let made = choose|made: Seq<Option<Candle>>| #[trigger]
        made_from(groups, base_ms, target, calc, made) && output == present(made);
    let places = present_candles_have_their_place(made);
    assert(made_at(made, output, places));
}

// ---------------------------------------------------------------------------
// Rows of an answer.
// ---------------------------------------------------------------------------

/// The value is a text that `read` takes for the number.
pub open spec fn reads_as<R: Fn(&String) -> Result<Double, String>>(
    value: JsonValue,
    read: R,
    number: Double,
) -> bool {
    value matches JsonValue::Text(s) && call_ensures(read, (&s,), Ok::<Double, String>(number))
}

/// The value is a whole number, with a sign where it needs one.
pub open spec fn is_signed(value: JsonValue, number: i64) -> bool {
    value matches JsonValue::Number { signed, unsigned } && signed == Some(number)
}

/// The value is a whole number without a sign.
pub open spec fn is_unsigned(value: JsonValue, number: u64) -> bool {
    value matches JsonValue::Number { signed, unsigned } && unsigned == Some(number)
}

/// A row that is taken for a candle has its values in the order in which the
/// exchange sends them: opening time, open, high, low, close, volume, closing
/// time, quote volume, trades. The candle is closed.
pub proof fn rows_are_read_by_position<R: Fn(&String) -> Result<Double, String>>(
    row: JsonValue,
    read: R,
    candle: Candle,
)
    requires
        row_read(row, read, Ok::<Candle, RestError>(candle)),
    ensures
        row matches JsonValue::Array(values) && {
            &&& values@.len() >= 9
            &&& is_signed(values@[0], candle.open_time)
            &&& reads_as(values@[1], read, candle.open)
            &&& reads_as(values@[2], read, candle.high)
            &&& reads_as(values@[3], read, candle.low)
            &&& reads_as(values@[4], read, candle.close)
            &&& reads_as(values@[5], read, candle.volume)
            &&& is_signed(values@[6], candle.close_time)
            &&& reads_as(values@[7], read, candle.quote_volume)
            &&& is_unsigned(values@[8], candle.trade_count)
        },
        candle.is_closed,
{
}

/// A row with nine values of the right kinds is a candle wherever the texts can
/// be read as numbers.
pub proof fn rows_of_the_right_kinds_are_candles<R: Fn(&String) -> Result<Double, String>>(
    values: Vec<JsonValue>,
    read: R,
    r: Result<Candle, RestError>,
)
    requires
        row_read(JsonValue::Array(values), read, r),
        values@.len() >= 9,
        values@[0] matches JsonValue::Number { signed: Some(_), unsigned: _ },
        values@[1] is Text && values@[2] is Text && values@[3] is Text && values@[4] is Text
            && values@[5] is Text && values@[7] is Text,
        values@[6] matches JsonValue::Number { signed: Some(_), unsigned: _ },
        values@[8] matches JsonValue::Number { signed: _, unsigned: Some(_) },
    ensures
        (forall|s: String, out: Result<Double, String>| #[trigger]
            call_ensures(read, (&s,), out) ==> out is Ok) ==> r is Ok,
        r matches Err(error) ==> (error matches RestError::Number(reason) && exists|s: String|
            #[trigger]
            call_ensures(read, (&s,), Err::<Double, String>(reason))),
{
    let n = choose|
        n: (
            Result<Double, RestError>,
            Result<Double, RestError>,
            Result<Double, RestError>,
            Result<Double, RestError>,
            Result<Double, RestError>,
            Result<Double, RestError>,
        ),
    | #[trigger] row_made(values@, read, n, r);
    assert(row_made(values@, read, n, r));
}

/// What is no row of nine values is refused, and so is a row without its times
/// or its trades.
pub proof fn rows_of_the_wrong_kinds_are_refused<R: Fn(&String) -> Result<Double, String>>(
    row: JsonValue,
    read: R,
    r: Result<Candle, RestError>,
)
    requires
        row_read(row, read, r),
    ensures
        !(row is Array) ==> r == Err::<Candle, RestError>(RestError::InvalidPayload),
        row matches JsonValue::Array(values) ==> {
            &&& values@.len() < 9 ==> r == Err::<Candle, RestError>(RestError::InvalidPayload)
            &&& values@.len() >= 9 && !(values@[0] matches JsonValue::Number {
                signed: Some(_),
                unsigned: _,
            }) ==> r == Err::<Candle, RestError>(RestError::InvalidPayload)
            &&& values@.len() >= 9 && !(values@[6] matches JsonValue::Number {
                signed: Some(_),
                unsigned: _,
            }) ==> r is Err
            &&& values@.len() >= 9 && !(values@[8] matches JsonValue::Number {
                signed: _,
                unsigned: Some(_),
            }) ==> r is Err
            &&& values@.len() >= 9 && !(values@[1] is Text && values@[2] is Text
                && values@[3] is Text && values@[4] is Text && values@[5] is Text
                && values@[7] is Text) ==> r is Err
        },
{
}

/// The candles of a look back are as many as were asked for, and its last one
/// is that of the bucket before now.
pub proof fn lookbacks_are_as_long_as_asked(
    interval: Interval,
    lookback_bars: u32,
    now_ms: i64,
    window: (i64, i64),
    bars: u32,
)
    requires
        interval.millis() > 0,
        lookback_bars >= 1,
        call_ensures(closed_lookback_window, (&interval, lookback_bars, now_ms), window),
        call_ensures(expected_bars, (&interval, window.0, window.1), bars),
    ensures
        bars == lookback_bars,
        window.0 <= window.1,
        window.1 - window.0 == (lookback_bars - 1) * interval.millis(),
        window.1 + interval.millis() == interval.bucket(now_ms as int),
{
    lookbacks_hold_the_bars_asked_for(
        interval,
        lookback_bars,
        now_ms as int,
        lookback(interval, lookback_bars, now_ms as int),
    );
    vstd::arithmetic::mul::lemma_mul_nonnegative(lookback_bars - 1, interval.millis());
}

/// A request is for as many candles as are wanted, up to the most that one may
/// ask for, which is that of a full page.
pub proof fn requests_stay_below_the_limit(limit: u32, r: u32)
    requires
        call_ensures(request_limit, (limit,), r),
    ensures
        r <= limit && r <= 1500,
        r == limit || r == 1500,
{
}

/// A window without stored candles is asked for whole, in pages from its first
/// candle to its last.
pub proof fn empty_windows_are_asked_for_whole(
    start: i64,
    end: i64,
    interval_ms: i64,
    existing: &[i64],
    ranges: Vec<MissingKlineRange>,
    pages: Vec<RestKlinePage>,
)
    requires
        interval_ms > 0,
        start <= end,
        (end - start) % (interval_ms as int) == 0,
        existing@.len() == 0,
        call_ensures(detect_missing_kline_ranges, (start, end, interval_ms, existing), ranges),
        ranges@.len() > 0 ==> ranges@[0].countable() && (end - start) / (interval_ms as int)
            < u32::MAX && call_ensures(plan_rest_kline_pages, (&ranges@[0],), pages),
    ensures
        ranges@.len() == 1,
        pages@.len() > 0,
        pages@[0].start_time == start,
        pages@.last().end_time == end + interval_ms - 1,
        forall|i: int, j: int|
            0 <= i && j == i + 1 && j < pages@.len() ==> (#[trigger] pages@[j]).start_time == (
            #[trigger] pages@[i]).end_time + 1,
{
    gaps_are_none_or_all(start, end, interval_ms, existing@, ranges@);
    let range = ranges@[0];
    pages_tile_the_range(range, pages@);
    ranges_count_both_ends(range);
    pages_ask_for_what_they_span(range, pages@);
    let step = interval_ms as int;
    let q = (end - start) / step;
    vstd::arithmetic::div_mod::lemma_fundamental_div_mod(end - start, step);
    let count = range.count() as int;
    assert(count == q + 1) by (nonlinear_arith)
        requires
            step > 0,
            (count - 1) * step <= step * q,
            step * q < count * step,
    ;
    vstd::arithmetic::mul::lemma_mul_is_distributive_add_other_way(step, q, 1);
    vstd::arithmetic::mul::lemma_mul_is_commutative(step, q);
}

/// The row's value at the place can be read as a number.
pub open spec fn can_be_read<R: Fn(&String) -> Result<Double, String>>(
    values: Seq<JsonValue>,
    read: R,
    at: int,
) -> bool {
    exists|number: Double| #[trigger] reads_as(values[at], read, number)
}

/// The row's value at the place is a text that `read` refuses for the reason.
pub open spec fn is_refused<R: Fn(&String) -> Result<Double, String>>(
    values: Seq<JsonValue>,
    read: R,
    at: int,
    reason: String,
) -> bool {
    values[at] matches JsonValue::Text(s) && call_ensures(
        read,
        (&s,),
        Err::<Double, String>(reason),
    )
}

/// Where a number of a row cannot be read, the first such number is told: those
/// before it can be read.
pub proof fn the_first_unreadable_number_is_told<R: Fn(&String) -> Result<Double, String>>(
    values: Vec<JsonValue>,
    read: R,
    reason: String,
)
    requires
        values@.len() >= 9,
        row_read(
            JsonValue::Array(values),
            read,
            Err::<Candle, RestError>(RestError::Number(reason)),
        ),
    ensures
        exists|at: int|
            {
                &&& #[trigger] is_refused(values@, read, at, reason)
                &&& 1 <= at <= 5 || at == 7
                &&& forall|k: int| 1 <= k < at && k != 6 ==> #[trigger] can_be_read(values@, read, k)
            },
{
    let r = Err::<Candle, RestError>(RestError::Number(reason));
    let n = choose|
        n: (
            Result<Double, RestError>,
            Result<Double, RestError>,
            Result<Double, RestError>,
            Result<Double, RestError>,
            Result<Double, RestError>,
            Result<Double, RestError>,
        ),
    | #[trigger] row_made(values@, read, n, r);
    assert(row_made(values@, read, n, r));
    let v = values@;
    assert(n.0 is Ok ==> reads_as(v[1], read, n.0->Ok_0));
    assert(n.1 is Ok ==> reads_as(v[2], read, n.1->Ok_0));
    assert(n.2 is Ok ==> reads_as(v[3], read, n.2->Ok_0));
    assert(n.3 is Ok ==> reads_as(v[4], read, n.3->Ok_0));
    assert(n.4 is Ok ==> reads_as(v[5], read, n.4->Ok_0));
    let at: int = if n.0 is Err {
        1
    } else if n.1 is Err {
        2
    } else if n.2 is Err {
        3
    } else if n.3 is Err {
        4
    } else if n.4 is Err {
        5
    } else {
        7
    };
    assert(is_refused(v, read, at, reason));
    assert(at > 1 ==> can_be_read(v, read, 1));
    assert(at > 2 ==> can_be_read(v, read, 2));
    assert(at > 3 ==> can_be_read(v, read, 3));
    assert(at > 4 ==> can_be_read(v, read, 4));
    assert(at > 5 ==> can_be_read(v, read, 5));
}

/// An answer of rows gives one candle for each row, in their order, or tells
/// what is wrong with the first row that is none.
pub proof fn answers_are_read_row_by_row<R: Fn(&String) -> Result<Double, String>>(
    rows: Vec<JsonValue>,
    read: R,
    r: Result<Vec<Candle>, RestError>,
)
    requires
        rows_read(rows@, read, r),
    ensures
        r matches Ok(candles) ==> candles@.len() == rows@.len() && forall|i: int|
            0 <= i < rows@.len() ==> row_read(
                rows@[i],
                read,
                Ok::<Candle, RestError>(#[trigger] candles@[i]),
            ),
        r matches Err(error) ==> exists|i: int|
            0 <= i < rows@.len() && row_read(
                #[trigger] rows@[i],
                read,
                Err::<Candle, RestError>(error),
            ),
        rows@.len() == 0 ==> r is Ok,
{
    if let Err(error) = r {
        let i = choose|i: int| #[trigger] first_refused(rows@, read, i, error);
        assert(row_read(rows@[i], read, Err::<Candle, RestError>(error)));
    }
}

/// No interval that is supported, no count of candles and no time from the
/// epoch up to the end of the calendar is beyond a look back or a refresh.
pub proof fn every_lookback_of_the_calendar_fits(
    interval: Interval,
    lookback_bars: u32,
    now_ms: int,
)
    requires
        interval.supported(),
        0 <= now_ms <= 8_210_266_876_799_999,
    ensures
        lookback_fits(interval, lookback_bars, now_ms),
        refresh_fits(interval, now_ms),
{
    let step = interval.millis();
    assert(0 < step <= 864_000_000);
    crate::domain::interval::instants_since_the_epoch_have_a_bucket(interval, now_ms);
    let bars: int = if lookback_bars < 1 {
        1
    } else {
        lookback_bars as int
    };
    assert(0 <= (bars - 1) * step <= 4_294_967_295 * 864_000_000) by (nonlinear_arith)
        requires
            1 <= bars <= 4_294_967_296,
            0 < step <= 864_000_000,
    ;
}

/// Every window of the calendar can be walked and its candles counted, whatever
/// the interval.
pub proof fn every_window_of_the_calendar_fits(interval: Interval, start: int, end: int)
    requires
        interval.supported(),
        0 <= start <= end <= 8_210_266_876_799_999,
    ensures
        walkable(start, end, interval.millis()),
        bars_fit(interval, start, end),
{
    let step = interval.millis();
    assert(0 < step <= 864_000_000);
    let d = end - start;
    let q = d / step;
    vstd::arithmetic::div_mod::lemma_fundamental_div_mod(d, step);
    vstd::arithmetic::div_mod::lemma_mod_bound(d, step);
    vstd::arithmetic::mul::lemma_mul_is_commutative(step, q);
    vstd::arithmetic::mul::lemma_mul_is_distributive_add_other_way(step, q, 1);
    quotient_bound(d, step);
}

/// Every gap in such a window can be asked for.
pub proof fn every_gap_of_the_calendar_can_be_asked_for(interval: Interval, range: MissingKlineRange)
    requires
        interval.supported(),
        range.interval_ms == interval.millis(),
        0 <= range.start_open_time <= range.end_open_time <= 8_210_266_876_799_999,
    ensures
        range.countable(),
{
    let step = interval.millis();
    assert(0 < step <= 864_000_000);
    let d = range.end_open_time - range.start_open_time;
    let q = d / step;
    quotient_bound(d, step);
    vstd::arithmetic::div_mod::lemma_div_pos_is_pos(d, step);
    let count = range.count() as int;
    assert(0 <= count * step <= 4_294_967_295 * 864_000_000) by (nonlinear_arith)
        requires
            0 <= count <= 4_294_967_295,
            0 < step <= 864_000_000,
    ;
    let page = range.first_page();
    if count > 0 {
        assert(0 <= (page - 1) * step <= 1_500 * 864_000_000) by (nonlinear_arith)
            requires
                0 < page <= 1_500,
                0 < step <= 864_000_000,
        ;
    }
}

} // verus!
