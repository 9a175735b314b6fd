//! Starting live intervals from stored candles, so that the open candle has
//! what happened before the stream began.

use crate::binance::worker::{preview, preview_of, KlineRoll, TradeRoll};
use crate::domain::candle::Candle;
use crate::domain::interval::{leading_phase, parsed_interval, Interval};
use crate::domain::number::{calculates, Calc, Double};
use crate::engine::aggregator::{bucket_is_a_time, AggregationError, Aggregator};
use crate::storage::sqlite::{candles_of, open_times, open_times_of, StoredKline};
use vstd::prelude::*;
use vstd::string::*;

verus! {

/// Taking in one candle, refused or not, leads from one state to the next.
pub open spec fn fed_once<F: Fn(Calc) -> Double>(
    before: Aggregator,
    row: Candle,
    calc: F,
    after: Aggregator,
) -> bool {
    exists|r: Result<Option<Candle>, AggregationError>| #[trigger]
        before.advances(row, calc, r, after)
}

/// `states` are the states in turn.
pub open spec fn fed_through<F: Fn(Calc) -> Double>(
    states: Seq<Aggregator>,
    rows: Seq<Candle>,
    calc: F,
) -> bool {
    &&& states.len() == rows.len() + 1
    &&& forall|i: int, j: int|
        0 <= i && j == i + 1 && j < states.len() ==> fed_once(
            #[trigger] states[i],
            rows[i],
            calc,
            #[trigger] states[j],
        )
}

/// Taking in the rows in turn leads from one state to another.
pub open spec fn fed<F: Fn(Calc) -> Double>(
    before: Aggregator,
    rows: Seq<Candle>,
    calc: F,
    after: Aggregator,
) -> bool {
    exists|states: Seq<Aggregator>| #[trigger]
        fed_through(states, rows, calc) && states[0] == before && states.last() == after
}

/// The start and the trades of the open candle once the rows are taken in.
pub open spec fn tally(aggregator: Aggregator, rows: Seq<Candle>) -> Option<(int, int)>
    decreases rows.len(),
{
    if rows.len() == 0 {
        match aggregator.open_candle() {
            Some(current) => Some((current.open_time as int, current.trade_count as int)),
            None => None,
        }
    } else {
        let row = rows.last();
        let start = aggregator.bucket(row.open_time as int);
        match tally(aggregator, rows.drop_last()) {
            Some((open, trades)) => if start < open {
                Some((open, trades))
            } else if start == open {
                Some((open, trades + row.trade_count))
            } else {
                Some((start, row.trade_count as int))
            },
            None => Some((start, row.trade_count as int)),
        }
    }
}

/// The next row's bucket and the trades in it fit into machine numbers.
pub open spec fn next_fits(aggregator: Aggregator, open: Option<(int, int)>, row: Candle) -> bool {
    let start = aggregator.bucket(row.open_time as int);
    &&& aggregator.has_bucket(row.open_time as int)
    &&& start + aggregator.span().millis() <= i64::MAX
    &&& open matches Some((at, trades)) ==> at == start ==> trades + row.trade_count <= u64::MAX
}

/// The rows can be taken in in turn.
pub open spec fn can_feed(aggregator: Aggregator, rows: Seq<Candle>) -> bool {
    forall|i: int|
        0 <= i < rows.len() ==> next_fits(
            aggregator,
            tally(aggregator, rows.take(i)),
            #[trigger] rows[i],
        )
}

/// Whether the rows can be taken in in turn.
pub fn fits(aggregator: &Aggregator, rows: &Vec<Candle>) -> (r: bool)
    ensures
        r == can_feed(*aggregator, rows@),
{
    let length: i64 = aggregator.interval().as_millis() as i64;
    let mut open: Option<(i64, u64)> = match aggregator.current() {
        Some(current) => Some((current.open_time, current.trade_count)),
        None => None,
    };
    let mut i: usize = 0;
    assert(rows@.take(0).len() == 0);
    while i < rows.len()
        invariant
            i <= rows@.len(),
            length == aggregator.span().millis(),
            match open {
                Some((at, trades)) => tally(*aggregator, rows@.take(i as int)) == Some(
                    (at as int, trades as int),
                ),
                None => tally(*aggregator, rows@.take(i as int)) is None,
            },
            forall|j: int|
                0 <= j < i ==> next_fits(
                    *aggregator,
                    tally(*aggregator, rows@.take(j)),
                    #[trigger] rows@[j],
                ),
        decreases rows@.len() - i,
    {
        assert(rows@.take(i + 1).drop_last() =~= rows@.take(i as int));
        let row = rows[i];
        assert(row == rows@[i as int]);
        if !aggregator.can_bucket(row.open_time) {
            return false;
        }
        let start: i64 = aggregator.bucket_start_ms(row.open_time);
        if start.checked_add(length).is_none() {
            return false;
        }
        open = match open {
            Some((at, trades)) => {
                if start < at {
                    Some((at, trades))
                } else if start == at {
                    match trades.checked_add(row.trade_count) {
                        Some(sum) => Some((at, sum)),
                        None => {
                            return false;
                        },
                    }
                } else {
                    Some((start, row.trade_count))
                }
            },
            None => Some((start, row.trade_count)),
        };
        i += 1;
    }
    true
}

/// Takes in the rows in turn. Rows that are out of order are passed over.
pub fn feed<F: Fn(Calc) -> Double>(
    aggregator: &mut Aggregator,
    rows: &Vec<Candle>,
    calc: &F,
)
    requires
        calculates(*calc),
        can_feed(*old(aggregator), rows@),
    ensures
        fed(*old(aggregator), rows@, *calc, *final(aggregator)),
        final(aggregator).span() == old(aggregator).span(),
        final(aggregator).anchor() == old(aggregator).anchor(),
{
    let ghost before = *aggregator;
    let ghost mut states: Seq<Aggregator> = seq![before];
    let mut i: usize = 0;
    assert(rows@.take(0).len() == 0);
    while i < rows.len()
        invariant
            i <= rows@.len(),
            calculates(*calc),
            before == *old(aggregator),
            can_feed(before, rows@),
            aggregator.span() == before.span(),
            aggregator.anchor() == before.anchor(),
            tally(*aggregator, Seq::empty()) == tally(before, rows@.take(i as int)),
            states.len() == i + 1,
            states[0] == before,
            states[i as int] == *aggregator,
            forall|a: int, b: int|
                0 <= a && b == a + 1 && b < states.len() ==> fed_once(
                    #[trigger] states[a],
                    rows@[a],
                    *calc,
                    #[trigger] states[b],
                ),
        decreases rows@.len() - i,
    {
        let ghost now = *aggregator;
        proof {
            let row = rows@[i as int];
            assert(next_fits(before, tally(before, rows@.take(i as int)), row));
            assert(rows@.take(i + 1).drop_last() =~= rows@.take(i as int));
            bucket_is_a_time(now, row.open_time);
        }
        let _ = aggregator.ingest_candle(rows[i], calc);
        proof {
            assert(fed_once(now, rows@[i as int], *calc, *aggregator));
            states = states.push(*aggregator);
        }
        i += 1;
    }
    assert(rows@.take(i as int) =~= rows@);
    assert(fed_through(states, rows@, *calc));
}

/// The candles of the rows that were over before `now_ms`.
pub open spec fn over_before(rows: Seq<StoredKline>, now_ms: i64) -> Seq<Candle> {
    candles_of(rows).filter(|candle: Candle| candle.close_time < now_ms)
}

fn pick_over(rows: &Vec<StoredKline>, now_ms: i64) -> (r: Vec<Candle>)
    ensures
        r@ == over_before(rows@, now_ms),
        forall|i: int| 0 <= i < r@.len() ==> (#[trigger] r@[i]).close_time < now_ms,
{
    let ghost candles = candles_of(rows@);
    let ghost keep = |candle: Candle| candle.close_time < now_ms;
    let mut out: Vec<Candle> = Vec::new();
    let mut i: usize = 0;
    assert(candles.take(0).filter(keep) =~= Seq::<Candle>::empty()) by {
        reveal(Seq::filter);
    }
    while i < rows.len()
        invariant
            i <= rows@.len(),
            candles == candles_of(rows@),
            keep == (|candle: Candle| candle.close_time < now_ms),
            out@ == candles.take(i as int).filter(keep),
            forall|j: int| 0 <= j < out@.len() ==> (#[trigger] out@[j]).close_time < now_ms,
        decreases rows@.len() - i,
    {
        assert(candles.take(i + 1).drop_last() =~= candles.take(i as int));
        assert(candles[i as int] == rows@[i as int].candle);
        proof {
            reveal(Seq::filter);
        }
        if rows[i].candle.close_time < now_ms {
            out.push(rows[i].candle);
        }
        i += 1;
    }
    assert(candles.take(i as int) =~= candles);
    out
}

pub(crate) fn candle_list(rows: &Vec<StoredKline>) -> (r: Vec<Candle>)
    ensures
        r@ == candles_of(rows@),
{
    let mut out: Vec<Candle> = Vec::new();
    let mut i: usize = 0;
    while i < rows.len()
        invariant
            i <= rows@.len(),
            out@ == candles_of(rows@.take(i as int)),
        decreases rows@.len() - i,
    {
        out.push(rows[i].candle);
        i += 1;
        assert(out@ =~= candles_of(rows@.take(i as int)));
    }
    assert(rows@.take(i as int) =~= rows@);
    out
}

/// Where the minutes take over: after the last of the candles, and not before
/// the start of the bucket.
pub open spec fn minutes_from(start: i64, days: Seq<Candle>) -> int
    decreases days.len(),
{
    if days.len() == 0 {
        start as int
    } else {
        let earlier = minutes_from(start, days.drop_last());
        if earlier < days.last().close_time + 1 {
            days.last().close_time + 1
        } else {
            earlier
        }
    }
}

fn find_minutes_start(start: i64, days: &Vec<Candle>, now_ms: i64) -> (r: i64)
    requires
        forall|i: int| 0 <= i < days@.len() ==> (#[trigger] days@[i]).close_time < now_ms,
    ensures
        r == minutes_from(start, days@),
{
    let mut from: i64 = start;
    let mut i: usize = 0;
    assert(days@.take(0).len() == 0);
    while i < days.len()
        invariant
            i <= days@.len(),
            from == minutes_from(start, days@.take(i as int)),
            forall|j: int| 0 <= j < days@.len() ==> (#[trigger] days@[j]).close_time < now_ms,
        decreases days@.len() - i,
    {
        assert(days@.take(i + 1).drop_last() =~= days@.take(i as int));
        assert(days@[i as int].close_time < now_ms);
        let next: i64 = days[i].close_time + 1;
        if from < next {
            from = next;
        }
        i += 1;
    }
    assert(days@.take(i as int) =~= days@);
    from
}

/// How many steps of `step_ms` fit between two instants, with the one that
/// has begun.
pub open spec fn steps_between(from: int, now_ms: int, step_ms: int) -> int {
    if now_ms < from {
        1
    } else {
        (now_ms - from) / step_ms + 1
    }
}

/// The steps can be counted in 64-bit numbers.
pub open spec fn steps_fit(from: int, now_ms: int, step_ms: int) -> bool {
    step_ms > 0 && now_ms - from <= i64::MAX
}

/// Whether the steps can be counted in 64-bit numbers.
pub fn can_step(from: i64, now_ms: i64, step_ms: u64) -> (r: bool)
    ensures
        r == steps_fit(from as int, now_ms as int, step_ms as int),
{
    step_ms > 0 && (now_ms < from || now_ms.checked_sub(from).is_some())
}

/// How many stored candles to ask for: the steps, cut to 32 bits, and at least
/// one.
pub fn seed_limit(from: i64, now_ms: i64, step_ms: u64) -> (r: u32)
    requires
        steps_fit(from as int, now_ms as int, step_ms as int),
    ensures
        ({
            let steps = steps_between(from as int, now_ms as int, step_ms as int) as u32;
            r == if steps < 1 {
                1
            } else {
                steps
            }
        }),
{
    if now_ms < from {
        return 1;
    }
    proof {
        vstd::arithmetic::div_mod::lemma_div_pos_is_pos(now_ms - from, step_ms as int);
        vstd::arithmetic::div_mod::lemma_div_nonincreasing(now_ms - from, step_ms as int);
    }
    let steps: u32 = ((now_ms - from) as u64 / step_ms + 1) as u32;
    if steps < 1 {
        1
    } else {
        steps
    }
}

/// The instant from which the buckets of a series are counted, as its stored
/// candles show it, for intervals that the exchange aligns per symbol.
pub fn stored_bucket_anchor(interval: Interval, rows: &Vec<StoredKline>) -> (r: Option<i64>)
    ensures
        match r {
            Some(anchor_ms) => {
                &&& interval matches Interval::Days(days) && days > 1
                &&& interval.native_name() is Some
                &&& leading_phase(open_times_of(rows@), interval.millis(), anchor_ms as int)
            },
            None => {
                ||| !(interval matches Interval::Days(days) && days > 1)
                ||| interval.native_name() is None
                ||| rows@.len() == 0
            },
        },
{
    if !interval.uses_symbol_specific_binance_alignment() {
        return None;
    }
    let times = open_times(rows);
    interval.infer_bucket_anchor_ms(times.as_slice())
}

impl KlineRoll {
    /// The same roll in another state.
    pub open spec fn at(self, aggregator: Aggregator) -> KlineRoll {
        KlineRoll { aggregator, ..self }
    }

    /// Whether days are used to start: the interval is longer than one.
    pub fn starts_from_days(&self) -> (r: bool)
        ensures
            r == (self.aggregator.span().millis() > 86_400_000),
    {
        self.aggregator.interval().as_millis() > 86_400_000
    }

    /// Whether the rows that are over can be taken in.
    pub fn can_seed(&self, rows: &Vec<StoredKline>, now_ms: i64) -> (r: bool)
        ensures
            r == can_feed(self.aggregator, over_before(rows@, now_ms)),
    {
        fits(&self.aggregator, &pick_over(rows, now_ms))
    }

    /// Takes in the days that are over and tells from when on minutes are
    /// needed.
    pub fn seed_days<F: Fn(Calc) -> Double>(
        &mut self,
        daily_rows: &Vec<StoredKline>,
        start_time: i64,
        now_ms: i64,
        calc: &F,
    ) -> (r: i64)
        requires
            calculates(*calc),
            can_feed(old(self).aggregator, over_before(daily_rows@, now_ms)),
        ensures
            r == minutes_from(start_time, over_before(daily_rows@, now_ms)),
            *final(self) == old(self).at(final(self).aggregator),
            fed(
                old(self).aggregator,
                over_before(daily_rows@, now_ms),
                *calc,
                final(self).aggregator,
            ),
    {
        let days = pick_over(daily_rows, now_ms);
        feed(&mut self.aggregator, &days, calc);
        find_minutes_start(start_time, &days, now_ms)
    }

    /// Takes in the minutes that are over and gives the candle to show.
    pub fn seed_minutes<F: Fn(Calc) -> Double>(
        &mut self,
        minute_rows: &Vec<StoredKline>,
        now_ms: i64,
        calc: &F,
    ) -> (r: Option<Candle>)
        requires
            calculates(*calc),
            can_feed(old(self).aggregator, over_before(minute_rows@, now_ms)),
        ensures
            *final(self) == old(self).at(final(self).aggregator),
            fed(
                old(self).aggregator,
                over_before(minute_rows@, now_ms),
                *calc,
                final(self).aggregator,
            ),
            match final(self).aggregator.open_candle() {
                Some(current) => r == Some(preview(current, now_ms)),
                None => r is None,
            },
    {
        let minutes = pick_over(minute_rows, now_ms);
        feed(&mut self.aggregator, &minutes, calc);
        match self.aggregator.current() {
            Some(current) => Some(preview_of(current, now_ms)),
            None => None,
        }
    }
}

/// The interval whose stored candles start an interval that is built from
/// trades: its native base, or itself.
pub open spec fn seed_base(interval: Interval) -> Interval {
    match interval.base() {
        Some(base) => base,
        None => interval,
    }
}

impl TradeRoll {
    /// The same roll in another state.
    pub open spec fn at(self, aggregator: Aggregator) -> TradeRoll {
        TradeRoll { aggregator, ..self }
    }

    /// The interval to start from; none for intervals below a minute, which
    /// are not stored.
    pub fn seed_interval(&self) -> (r: Option<Interval>)
        ensures
            r == match parsed_interval(self.target@) {
                Some(interval) => if interval.millis() < 60_000 {
                    None
                } else {
                    Some(seed_base(interval))
                },
                None => None,
            },
    {
        match Interval::parse(self.target.as_str()) {
            Ok(interval) => {
                if interval.as_millis() < 60_000 {
                    None
                } else {
                    match interval.aggregation_base() {
                        Some(base) => Some(base),
                        None => Some(interval),
                    }
                }
            },
            Err(_) => None,
        }
    }

    /// Whether the rows can be taken in.
    pub fn can_seed(&self, rows: &Vec<StoredKline>) -> (r: bool)
        ensures
            r == can_feed(self.aggregator, candles_of(rows@)),
    {
        fits(&self.aggregator, &candle_list(rows))
    }

    /// Takes in the stored candles of the bucket and gives the candle to show.
    pub fn seed<F: Fn(Calc) -> Double>(&mut self, rows: &Vec<StoredKline>, calc: &F) -> (r:
        Option<Candle>)
        requires
            calculates(*calc),
            can_feed(old(self).aggregator, candles_of(rows@)),
        ensures
            *final(self) == old(self).at(final(self).aggregator),
            fed(old(self).aggregator, candles_of(rows@), *calc, final(self).aggregator),
            match final(self).aggregator.open_candle() {
                Some(current) => r == Some((Candle { is_closed: false, ..current })),
                None => r is None,
            },
    {
        let candles = candle_list(rows);
        feed(&mut self.aggregator, &candles, calc);
        match self.aggregator.current() {
            Some(current) => Some(Candle { is_closed: false, ..current }),
            None => None,
        }
    }
}

/// A series is seeded with the rows that are over, and with all of those.
pub proof fn rows_that_are_over_seed(rows: Seq<StoredKline>, now_ms: i64, candle: Candle)
    ensures
        over_before(rows, now_ms).contains(candle) <==> candles_of(rows).contains(candle)
            && candle.close_time < now_ms,
{
    crate::series::filter_keeps(candles_of(rows), |c: Candle| c.close_time < now_ms);
}

/// The minutes follow the days: they start behind every day, and no later than
/// they must.
pub proof fn minutes_start_behind_the_days(start: i64, days: Seq<Candle>)
    ensures
        minutes_from(start, days) >= start,
        forall|i: int|
            0 <= i < days.len() ==> (#[trigger] days[i]).close_time < minutes_from(start, days),
        minutes_from(start, days) == start || exists|i: int|
            0 <= i < days.len() && (#[trigger] days[i]).close_time + 1 == minutes_from(start, days),
    decreases days.len(),
{
    if days.len() > 0 {
        let fewer = days.drop_last();
        minutes_start_behind_the_days(start, fewer);
        let n = days.len() - 1;
        assert forall|i: int| 0 <= i < days.len() implies (#[trigger] days[i]).close_time
            < minutes_from(start, days) by {
            if i < n {
                assert(fewer[i] == days[i]);
            }
        }
        if minutes_from(start, days) == minutes_from(start, fewer) {
            if minutes_from(start, fewer) != start {
                let i = choose|i: int|
                    0 <= i < fewer.len() && (#[trigger] fewer[i]).close_time + 1 == minutes_from(
                        start,
                        fewer,
                    );
                assert(days[i] == fewer[i]);
            }
        } else {
            assert(days[n].close_time + 1 == minutes_from(start, days));
        }
    }
}

/// The steps reach from the start to now, and one step less does not.
pub proof fn steps_reach_to_now(from: int, now_ms: int, step_ms: int)
    requires
        step_ms > 0,
    ensures
        from <= now_ms ==> {
            let steps = steps_between(from, now_ms, step_ms);
            (steps - 1) * step_ms <= now_ms - from < steps * step_ms
        },
        now_ms < from ==> steps_between(from, now_ms, step_ms) == 1,
{
    if from <= now_ms {
        let d = now_ms - from;
        vstd::arithmetic::div_mod::lemma_fundamental_div_mod(d, step_ms);
        vstd::arithmetic::div_mod::lemma_mod_bound(d, step_ms);
        vstd::arithmetic::mul::lemma_mul_is_commutative(step_ms, d / step_ms);
        vstd::arithmetic::mul::lemma_mul_is_distributive_add_other_way(step_ms, d / step_ms, 1);
    }
}

/// Rows that are fed one after the other can be fed in two parts: the state
/// after the first part is where the second starts.
pub proof fn rows_are_fed_in_turn<F: Fn(Calc) -> Double>(
    start: Aggregator,
    rows: Seq<Candle>,
    row: Candle,
    calc: F,
    end: Aggregator,
)
    requires
        fed(start, rows.push(row), calc, end),
    ensures
        exists|middle: Aggregator| #[trigger]
            fed(start, rows, calc, middle) && fed_once(middle, row, calc, end),
        fed(start, Seq::empty(), calc, start),
{
    let states = choose|states: Seq<Aggregator>| #[trigger]
        fed_through(states, rows.push(row), calc) && states[0] == start && states.last() == end;
    let fewer = states.drop_last();
    let n = rows.len() as int;
    let last = n + 1;
    assert(fed_once(states[n], rows.push(row)[n], calc, states[last]));
    assert forall|i: int, j: int| 0 <= i && j == i + 1 && j < fewer.len() implies fed_once(
        #[trigger] fewer[i],
        rows[i],
        calc,
        #[trigger] fewer[j],
    ) by {
        assert(fed_once(states[i], rows.push(row)[i], calc, states[j]));
    }
    assert(fed_through(fewer, rows, calc));
    assert(fewer[0] == start && fewer.last() == states[n]);
    assert(fed(start, rows, calc, states[n]));
    let one = seq![start];
    assert(fed_through(one, Seq::empty(), calc));
    assert(one[0] == start && one.last() == start);
}

/// An interval of the exchange is seeded from itself; any other of minutes or
/// days from a shorter one of the exchange that divides it.
pub proof fn seeds_come_from_the_exchange(interval: Interval)
    requires
        interval.supported(),
        interval.millis() >= 60_000,
    ensures
        seed_base(interval).native_name() is Some,
        interval.native_name() is Some ==> seed_base(interval) == interval,
        interval.millis() % seed_base(interval).millis() == 0,
        interval.native_name() is None ==> seed_base(interval).millis() < interval.millis(),
{
    if interval.native_name() is None {
        crate::domain::interval::custom_intervals_have_a_native_base(interval);
    } else {
        vstd::arithmetic::div_mod::lemma_mod_self_0(interval.millis());
    }
}

/// At least one row is asked for, and otherwise as many as steps lie between
/// the start and now.
pub proof fn seeds_ask_for_enough_rows(from: i64, now_ms: i64, step_ms: u64, r: u32)
    requires
        step_ms > 0,
        call_ensures(seed_limit, (from, now_ms, step_ms), r),
    ensures
        r >= 1,
        now_ms < from ==> r == 1,
        from <= now_ms && (now_ms - from) / (step_ms as int) < u32::MAX ==> (r - 1) * step_ms
            <= now_ms - from < r * step_ms,
{
    steps_reach_to_now(from as int, now_ms as int, step_ms as int);
    if from <= now_ms {
        vstd::arithmetic::div_mod::lemma_div_pos_is_pos(now_ms - from, step_ms as int);
    }
}

/// Only intervals longer than a day are seeded from days.
pub proof fn long_intervals_start_from_days(roll: KlineRoll, r: bool)
    requires
        call_ensures(KlineRoll::starts_from_days, (&roll,), r),
    ensures
        r <==> roll.aggregator.span().millis() > Interval::Days(1).millis(),
{
}

/// Intervals shorter than a minute are not seeded; others are, from one of the
/// exchange that divides them.
pub proof fn trades_are_seeded_from_a_minute_on(roll: TradeRoll, r: Option<Interval>)
    requires
        call_ensures(TradeRoll::seed_interval, (&roll,), r),
    ensures
        parsed_interval(roll.target@) is None ==> r is None,
        parsed_interval(roll.target@) matches Some(interval) ==> {
            &&& interval.millis() < 60_000 <==> r is None
            &&& r matches Some(base) ==> base.native_name() is Some && interval.millis()
                % base.millis() == 0
        },
{
    if let Some(interval) = parsed_interval(roll.target@) {
        if interval.millis() >= 60_000 {
            seeds_come_from_the_exchange(interval);
        }
    }
}

/// Only the exchange's interval of several days has an anchor, and has one as
/// soon as there is a row; the anchor is the phase of one of the rows.
pub proof fn anchors_are_phases_of_the_rows(
    interval: Interval,
    rows: Vec<StoredKline>,
    r: Option<i64>,
)
    requires
        call_ensures(stored_bucket_anchor, (interval, &rows), r),
    ensures
        r is Some <==> interval == Interval::Days(3) && rows@.len() > 0,
        r matches Some(anchor) ==> exists|i: int|
            0 <= i < rows@.len() && (#[trigger] rows@[i]).candle.open_time as int
                % interval.millis() == anchor,
{
    if let Some(anchor) = r {
        let times = open_times_of(rows@);
        let i = choose|i: int|
            0 <= i < times.len() && #[trigger] times[i] as int % interval.millis() == anchor;
        assert(rows@[i].candle.open_time == times[i]);
    }
}

} // verus!
