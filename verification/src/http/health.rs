//! How the followed series are doing.

use crate::domain::candle::Candle;
use crate::domain::interval::{parsed_interval, Interval};
use crate::http::handlers::{base_rows, is_held_in_memory, merge_kline_rows, stands};
use crate::http::routes::{bad_request, HealthTarget, HttpError, BAD_REQUEST};
use crate::order::{insert_row, rows_of, strictly_sorted};
use crate::runtime_health::WebSocketHealth;
use crate::series::newest;
use crate::storage::sqlite::{candles_of, kline_views, KlineView, StoredKline};
use crate::text::{same_text, texts_of, to_upper, uppercase};
use vstd::prelude::*;
use vstd::string::*;

verus! {

pub const DEEP_HEALTH_SCAN_LIMIT: u32 = 5_000;

#[derive(Debug, Clone, Copy, PartialEq, Eq, Structural)]
pub struct HealthResponse {
    pub ok: bool,
}

/// The service answers.
pub fn health() -> (r: HealthResponse)
    ensures
        r.ok,
{
    HealthResponse { ok: true }
}

/// The health of one series. The time is milliseconds since the epoch.
#[derive(Debug)]
pub struct SeriesHealth {
    pub symbol: String,
    pub interval: String,
    pub latest_open_time: Option<i64>,
    pub latest_lag_intervals: Option<u32>,
    pub consecutive_bars_from_latest: u32,
    pub checked_bars: usize,
    pub source: &'static str,
    pub ok: bool,
    pub reason: Option<&'static str>,
}

/// The health of the service in full.
#[derive(Debug)]
pub struct DeepHealthResponse {
    pub ok: bool,
    pub websocket: WebSocketHealth,
    pub series: Vec<SeriesHealth>,
}

#[derive(Debug, PartialEq, Eq)]
pub struct SymbolHealthSummary {
    pub symbol: String,
    pub total: usize,
    pub ok: usize,
    pub bad: usize,
}

#[derive(Debug, PartialEq, Eq)]
pub struct HealthReasonSummary {
    pub reason: String,
    pub count: usize,
}

/// The health of the service in numbers.
#[derive(Debug)]
pub struct HealthSummaryResponse {
    pub ok: bool,
    pub websocket_ok: bool,
    pub total_series: usize,
    pub ok_series: usize,
    pub bad_series: usize,
    pub symbols: Vec<SymbolHealthSummary>,
    pub reasons: Vec<HealthReasonSummary>,
    pub server_time: i64,
}

// ---------------------------------------------------------------------------
// One series.
// ---------------------------------------------------------------------------

/// The candles, newest first, are gapless up to number `n` and no further.
pub open spec fn gapless_until(candles_desc: Seq<Candle>, interval_ms: int, n: int) -> bool {
    &&& 0 <= n <= candles_desc.len()
    &&& candles_desc.len() > 0 ==> n > 0
    &&& forall|i: int|
        0 <= i < n ==> (#[trigger] candles_desc[i]).open_time == candles_desc[0].open_time - i
            * interval_ms
    &&& n < candles_desc.len() ==> candles_desc[n].open_time != candles_desc[0].open_time - n
        * interval_ms
}

/// How many candles follow each other without a gap, from the newest back.
pub fn consecutive_bars_from_latest(candles_desc: &Vec<Candle>, interval_ms: i64) -> (r: u32)
    requires
        candles_desc@.len() <= u32::MAX,
    ensures
        gapless_until(candles_desc@, interval_ms as int, r as int),
{
    if candles_desc.len() == 0 {
        return 0;
    }
    let ghost first = candles_desc@[0].open_time as int;
    let ghost step = interval_ms as int;
    proof {
        vstd::arithmetic::mul::lemma_mul_basics(step);
    }
    let mut expected: i64 = candles_desc[0].open_time;
    let mut count: usize = 1;
    while count < candles_desc.len()
        invariant
            1 <= count <= candles_desc@.len() <= u32::MAX,
            first == candles_desc@[0].open_time,
            step == interval_ms,
            expected == first - (count - 1) * step,
            forall|i: int|
                0 <= i < count ==> (#[trigger] candles_desc@[i]).open_time == first - i * step,
        decreases candles_desc@.len() - count,
    {
        proof {
            vstd::arithmetic::mul::lemma_mul_is_distributive_add_other_way(step, count - 1, 1);
        }
        match expected.checked_sub(interval_ms) {
            Some(next) => {
                if candles_desc[count].open_time != next {
                    return count as u32;
                }
                expected = next;
            },
            None => {
                return count as u32;
            },
        }
        count += 1;
    }
    count as u32
}

/// How many intervals the newest closed candle may be behind.
pub open spec fn allowed_lag(interval: Interval) -> u32 {
    if interval.millis() < 60_000 {
        4
    } else {
        2
    }
}

pub fn max_allowed_lag_intervals(interval: &Interval) -> (r: u32)
    ensures
        r == allowed_lag(*interval),
        interval.millis() >= 60_000 ==> r == 2,
        interval.millis() < 60_000 ==> r == 4,
{
    if interval.as_millis() < 60_000 {
        4
    } else {
        2
    }
}

/// How many whole intervals lie between a candle and the bucket of now.
pub open spec fn intervals_behind(interval: Interval, latest_open_time: int, now_ms: int) -> int {
    if interval.bucket(now_ms) <= latest_open_time {
        0
    } else {
        (interval.bucket(now_ms) - latest_open_time) / interval.millis()
    }
}

/// The lag as it is told: the intervals behind, cut to 32 bits.
pub open spec fn lag(interval: Interval, latest_open_time: int, now_ms: int) -> u32 {
    intervals_behind(interval, latest_open_time, now_ms) as u32
}

/// The lag can be computed in 64-bit numbers.
pub open spec fn lag_fits(interval: Interval, latest_open_time: int, now_ms: int) -> bool {
    &&& interval.has_bucket(now_ms)
    &&& interval.bucket(now_ms) > latest_open_time ==> interval.millis() > 0
        && interval.bucket(now_ms) - latest_open_time <= i64::MAX
}

pub fn latest_lag_intervals_at(interval: &Interval, latest_open_time: i64, now_ms: i64) -> (r: u32)
    requires
        lag_fits(*interval, latest_open_time as int, now_ms as int),
    ensures
        r == lag(*interval, latest_open_time as int, now_ms as int),
{
    let current: i64 = interval.bucket_start_ms(now_ms);
    if current <= latest_open_time {
        return 0;
    }
    proof {
        vstd::arithmetic::div_mod::lemma_div_pos_is_pos(
            current - latest_open_time,
            interval.millis(),
        );
        vstd::arithmetic::div_mod::lemma_div_nonincreasing(
            current - latest_open_time,
            interval.millis(),
        );
    }
    ((current - latest_open_time) as u64 / interval.as_millis()) as u32
}

/// Whether the lag of a candle can be computed.
pub fn can_tell_lag(interval: &Interval, latest_open_time: i64, now_ms: i64) -> (r: bool)
    ensures
        r == lag_fits(*interval, latest_open_time as int, now_ms as int),
{
    if !interval.can_bucket(now_ms) {
        return false;
    }
    let current: i64 = interval.bucket_start_ms(now_ms);
    current <= latest_open_time || (interval.as_millis() > 0 && current.checked_sub(
        latest_open_time,
    ).is_some())
}

/// The newest candle is too far behind, or there is none.
pub open spec fn stale(interval: Interval, candles_desc: Seq<Candle>, now_ms: int) -> bool {
    candles_desc.len() == 0 || lag(interval, candles_desc[0].open_time as int, now_ms)
        > allowed_lag(interval)
}

/// The health tells how the series is doing, given its newest closed candles,
/// newest first.
pub open spec fn health_told(
    symbol: Seq<char>,
    interval: Interval,
    candles_desc: Seq<Candle>,
    now_ms: int,
    r: SeriesHealth,
) -> bool {
    &&& r.symbol@ == uppercase(symbol)
    &&& r.interval@ == interval.name()
    &&& r.latest_open_time == if candles_desc.len() > 0 {
        Some(candles_desc[0].open_time)
    } else {
        None
    }
    &&& match r.latest_lag_intervals {
        Some(behind) => candles_desc.len() > 0 && behind == lag(
            interval,
            candles_desc[0].open_time as int,
            now_ms,
        ),
        None => candles_desc.len() == 0,
    }
    &&& gapless_until(candles_desc, interval.millis(), r.consecutive_bars_from_latest as int)
    &&& r.checked_bars == candles_desc.len()
    &&& r.source@ == if interval.millis() < 60_000 {
        "memory"@
    } else {
        "sqlite"@
    }
    &&& r.ok == (candles_desc.len() > 0 && !stale(interval, candles_desc, now_ms))
    &&& match r.reason {
        None => r.ok,
        Some(reason) => !r.ok && reason@ == if candles_desc.len() == 0 {
            "no closed candles"@
        } else {
            "latest candle is stale"@
        },
    }
}

/// The health of a series from its newest closed candles, newest first.
pub fn series_health(
    symbol: &str,
    interval: &Interval,
    candles_desc: &Vec<Candle>,
    now_ms: i64,
) -> (r: SeriesHealth)
    requires
        candles_desc@.len() <= u32::MAX,
        candles_desc@.len() > 0 ==> lag_fits(
            *interval,
            candles_desc@[0].open_time as int,
            now_ms as int,
        ),
    ensures
        health_told(symbol@, *interval, candles_desc@, now_ms as int, r),
{
    let interval_ms: i64 = interval.as_millis() as i64;
    let bars: u32 = consecutive_bars_from_latest(candles_desc, interval_ms);
    let source = if interval.as_millis() < 60_000 {
        "memory"
    } else {
        "sqlite"
    };
    let (latest_open_time, latest_lag_intervals) = if candles_desc.len() > 0 {
        let time: i64 = candles_desc[0].open_time;
        let behind: u32 = latest_lag_intervals_at(interval, time, now_ms);
        (Some(time), Some(behind))
    } else {
        (None, None)
    };
    let is_stale = match latest_lag_intervals {
        Some(behind) => behind > max_allowed_lag_intervals(interval),
        None => true,
    };
    let ok = bars > 0 && !is_stale;
    let reason: Option<&'static str> = if bars == 0 {
        Some("no closed candles")
    } else if is_stale {
        Some("latest candle is stale")
    } else {
        None
    };
    SeriesHealth {
        symbol: to_upper(symbol),
        interval: interval.canonical(),
        latest_open_time,
        latest_lag_intervals,
        consecutive_bars_from_latest: bars,
        checked_bars: candles_desc.len(),
        source,
        ok,
        reason,
    }
}

/// The candles of the last `limit` rows, newest first.
pub fn newest_first(rows: &Vec<StoredKline>, limit: u32) -> (r: Vec<Candle>)
    ensures
        r@ == newest(candles_of(rows@), limit as int).reverse(),
{
    let ghost candles = candles_of(rows@);
    let kept: usize = if rows.len() > limit as usize {
        limit as usize
    } else {
        rows.len()
    };
    let mut out: Vec<Candle> = Vec::new();
    let mut i: usize = 0;
    while i < kept
        invariant
            i <= kept <= rows@.len(),
            candles == candles_of(rows@),
            out@.len() == i,
            forall|j: int| 0 <= j < i ==> #[trigger] out@[j] == candles[rows@.len() - 1 - j],
        decreases kept - i,
    {
        out.push(rows[rows.len() - 1 - i].candle);
        i += 1;
    }
    assert(out@ =~= newest(candles, limit as int).reverse());
    out
}

/// The candles of rows as values, newest first.
pub open spec fn scanned(rows: Seq<KlineView>) -> Seq<Candle> {
    newest(
        rows.map_values(|row: KlineView| row.candle),
        DEEP_HEALTH_SCAN_LIMIT as int,
    ).reverse()
}

/// The lag of the newest of the rows can be computed.
pub open spec fn newest_lag_fits(
    interval: Interval,
    stored: Seq<KlineView>,
    buffered: Seq<KlineView>,
    now_ms: int,
) -> bool {
    forall|base: Seq<KlineView>| #[trigger]
        base_rows(interval, stored, buffered, base) && scanned(base).len() > 0 ==> lag_fits(
            interval,
            scanned(base)[0].open_time as int,
            now_ms,
        )
}

/// Checks one followed series. `stored` are its rows in the store, or in
/// memory for an interval that is kept there; `buffered` are the rows that
/// wait to be written.
pub fn check_series(
    target: &HealthTarget,
    stored: &Vec<StoredKline>,
    buffered: &Vec<StoredKline>,
    now_ms: i64,
) -> (r: Result<SeriesHealth, HttpError>)
    requires
        parsed_interval(target.interval@) matches Some(interval) ==> newest_lag_fits(
            interval,
            kline_views(stored@),
            kline_views(buffered@),
            now_ms as int,
        ),
    ensures
        match parsed_interval(target.interval@) {
            Some(interval) => r matches Ok(health) && exists|base: Seq<KlineView>| #[trigger]
                base_rows(interval, kline_views(stored@), kline_views(buffered@), base)
                    && health_told(
                    target.symbol@,
                    interval,
                    scanned(base),
                    now_ms as int,
                    health,
                ),
            None => r matches Err(error) && error.says(
                BAD_REQUEST,
                "invalid interval: "@ + target.interval@,
            ),
        },
{
    let interval = match Interval::parse(target.interval.as_str()) {
        Ok(interval) => interval,
        Err(error) => {
            return Err(bad_request(error.message()));
        },
    };
    let ghost stored_views = kline_views(stored@);
    let ghost buffered_views = kline_views(buffered@);
    let candles;
    let ghost base;
    if is_held_in_memory(&interval) {
        candles = newest_first(stored, DEEP_HEALTH_SCAN_LIMIT);
        proof {
            base = stored_views;
            same_candles(stored@);
        }
    } else {
        let merged = merge_kline_rows(stored, buffered);
        candles = newest_first(&merged, DEEP_HEALTH_SCAN_LIMIT);
        proof {
            base = kline_views(merged@);
            same_candles(merged@);
        }
    }
    assert(base_rows(interval, stored_views, buffered_views, base));
    assert(candles@ == scanned(base));
    Ok(series_health(target.symbol.as_str(), &interval, &candles, now_ms))
}

proof fn same_candles(rows: Seq<StoredKline>)
    ensures
        candles_of(rows) == kline_views(rows).map_values(|row: KlineView| row.candle),
{
    assert(candles_of(rows) =~= kline_views(rows).map_values(|row: KlineView| row.candle));
}

/// Where the lag of every row can be computed, so can that of the newest.
pub proof fn newest_lag_is_a_rows_lag(
    interval: Interval,
    stored: Seq<StoredKline>,
    buffered: Seq<StoredKline>,
    now_ms: int,
)
    requires
        forall|i: int|
            0 <= i < stored.len() ==> lag_fits(
                interval,
                (#[trigger] stored[i]).candle.open_time as int,
                now_ms,
            ),
        forall|i: int|
            0 <= i < buffered.len() ==> lag_fits(
                interval,
                (#[trigger] buffered[i]).candle.open_time as int,
                now_ms,
            ),
    ensures
        newest_lag_fits(interval, kline_views(stored), kline_views(buffered), now_ms),
{
    let views = kline_views(stored) + kline_views(buffered);
    assert forall|base: Seq<KlineView>| #[trigger]
        base_rows(interval, kline_views(stored), kline_views(buffered), base) && scanned(base).len()
            > 0 implies lag_fits(interval, scanned(base)[0].open_time as int, now_ms) by {
        let row = base.last();
        assert(scanned(base)[0] == row.candle);
        if interval.millis() < 60_000 {
            assert(stored[stored.len() - 1].candle == row.candle);
        } else {
            assert(base.contains(row));
            let i = choose|i: int| stands(views, i, row);
            if i < stored.len() {
                assert(views[i] == stored[i]@);
            } else {
                assert(views[i] == buffered[i - stored.len()]@);
            }
        }
    }
}

// ---------------------------------------------------------------------------
// All series.
// ---------------------------------------------------------------------------

/// All series are well and so is the stream.
pub fn deep_health(websocket: WebSocketHealth, series: Vec<SeriesHealth>) -> (r: DeepHealthResponse)
    ensures
        r.websocket == websocket,
        r.series == series,
        r.ok == (websocket.ok && forall|i: int|
            0 <= i < series@.len() ==> (#[trigger] series@[i]).ok),
{
    let mut all = true;
    let mut i: usize = 0;
    while i < series.len()
        invariant
            i <= series@.len(),
            all == forall|j: int| 0 <= j < i ==> (#[trigger] series@[j]).ok,
        decreases series@.len() - i,
    {
        if !series[i].ok {
            all = false;
        }
        i += 1;
    }
    let ok = websocket.ok && all;
    DeepHealthResponse { ok, websocket, series }
}

/// How many items meet a condition.
pub open spec fn count_of(items: Seq<SeriesHealth>, test: spec_fn(SeriesHealth) -> bool) -> nat {
    items.filter(test).len()
}

/// The item is of the symbol.
pub open spec fn of_symbol(item: SeriesHealth, symbol: Seq<char>) -> bool {
    item.symbol@ == symbol
}

/// The item is bad for the reason.
pub open spec fn bad_for(item: SeriesHealth, reason: Seq<char>) -> bool {
    !item.ok && (item.reason matches Some(given) && given@ == reason)
}

/// The numbers of a symbol.
pub open spec fn symbol_counted(items: Seq<SeriesHealth>, summary: SymbolHealthSummary) -> bool {
    let symbol = summary.symbol@;
    &&& summary.total == count_of(items, |item: SeriesHealth| of_symbol(item, symbol))
    &&& summary.ok == count_of(items, |item: SeriesHealth| of_symbol(item, symbol) && item.ok)
    &&& summary.bad == count_of(items, |item: SeriesHealth| of_symbol(item, symbol) && !item.ok)
}

pub open spec fn symbol_names(summaries: Seq<SymbolHealthSummary>) -> Seq<Seq<Seq<char>>> {
    summaries.map_values(|summary: SymbolHealthSummary| seq![summary.symbol@])
}

pub open spec fn reason_names(summaries: Seq<HealthReasonSummary>) -> Seq<Seq<Seq<char>>> {
    summaries.map_values(|summary: HealthReasonSummary| seq![summary.reason@])
}

/// Some item is of the symbol that the row has.
pub open spec fn symbol_seen(items: Seq<SeriesHealth>, row: Seq<Seq<char>>) -> bool {
    exists|i: int| 0 <= i < items.len() && row == seq![(#[trigger] items[i]).symbol@]
}

/// Some item is bad for the reason that the row has.
pub open spec fn reason_seen(items: Seq<SeriesHealth>, row: Seq<Seq<char>>) -> bool {
    exists|i: int|
        0 <= i < items.len() && !(#[trigger] items[i]).ok && (items[i].reason matches Some(reason)
            && row == seq![reason@])
}

/// The symbols of the items, each once, in order, with their numbers.
pub open spec fn symbols_summed(
    items: Seq<SeriesHealth>,
    summaries: Seq<SymbolHealthSummary>,
) -> bool {
    &&& strictly_sorted(symbol_names(summaries))
    &&& forall|row: Seq<Seq<char>>| #[trigger]
        symbol_names(summaries).contains(row) <==> symbol_seen(items, row)
    &&& forall|i: int|
        0 <= i < summaries.len() ==> symbol_counted(items, #[trigger] summaries[i])
}

/// The reasons of the bad items, each once, in order, with their numbers.
pub open spec fn reasons_summed(
    items: Seq<SeriesHealth>,
    summaries: Seq<HealthReasonSummary>,
) -> bool {
    &&& strictly_sorted(reason_names(summaries))
    &&& forall|row: Seq<Seq<char>>| #[trigger]
        reason_names(summaries).contains(row) <==> reason_seen(items, row)
    &&& forall|i: int|
        0 <= i < summaries.len() ==> (#[trigger] summaries[i]).count == count_of(
            items,
            |item: SeriesHealth| bad_for(item, summaries[i].reason@),
        )
}

fn symbol_table(items: &Vec<SeriesHealth>) -> (r: Vec<Vec<String>>)
    ensures
        strictly_sorted(rows_of(r@)),
        forall|row: Seq<Seq<char>>| #[trigger]
            rows_of(r@).contains(row) <==> symbol_seen(items@, row),
{
    let mut table: Vec<Vec<String>> = Vec::new();
    let mut i: usize = 0;
    while i < items.len()
        invariant
            i <= items@.len(),
            strictly_sorted(rows_of(table@)),
            forall|row: Seq<Seq<char>>| #[trigger]
                rows_of(table@).contains(row) <==> symbol_seen(items@.take(i as int), row),
        decreases items@.len() - i,
    {
        let ghost before = rows_of(table@);
        let ghost some = items@.take(i as int);
        let ghost more = items@.take(i + 1);
        let mut row: Vec<String> = Vec::new();
        row.push(items[i].symbol.clone());
        assert(texts_of(row@) =~= seq![items@[i as int].symbol@]);
        insert_row(&mut table, row);
        proof {
            assert forall|row: Seq<Seq<char>>| #[trigger]
                rows_of(table@).contains(row) <==> symbol_seen(more, row) by {
                assert(before.contains(row) <==> symbol_seen(some, row));
                if symbol_seen(some, row) {
                    let k = choose|k: int|
                        0 <= k < some.len() && row == seq![(#[trigger] some[k]).symbol@];
                    assert(more[k] == some[k]);
                }
                assert(more[i as int] == items@[i as int]);
                if symbol_seen(more, row) {
                    let k = choose|k: int|
                        0 <= k < more.len() && row == seq![(#[trigger] more[k]).symbol@];
                    if k < i {
                        assert(some[k] == more[k]);
                    }
                }
            }
        }
        i += 1;
    }
    assert(items@.take(i as int) =~= items@);
    table
}

fn reason_table(items: &Vec<SeriesHealth>) -> (r: Vec<Vec<String>>)
    ensures
        strictly_sorted(rows_of(r@)),
        forall|row: Seq<Seq<char>>| #[trigger]
            rows_of(r@).contains(row) <==> reason_seen(items@, row),
{
    let mut table: Vec<Vec<String>> = Vec::new();
    let mut i: usize = 0;
    while i < items.len()
        invariant
            i <= items@.len(),
            strictly_sorted(rows_of(table@)),
            forall|row: Seq<Seq<char>>| #[trigger]
                rows_of(table@).contains(row) <==> reason_seen(items@.take(i as int), row),
        decreases items@.len() - i,
    {
        let ghost before = rows_of(table@);
        let ghost some = items@.take(i as int);
        let ghost more = items@.take(i + 1);
        let ghost item = items@[i as int];
        if !items[i].ok {
            match items[i].reason {
                Some(reason) => {
                    let mut row: Vec<String> = Vec::new();
                    row.push(reason.to_owned());
                    assert(texts_of(row@) =~= seq![reason@]);
                    insert_row(&mut table, row);
                },
                None => {},
            }
        }
        proof {
            assert forall|row: Seq<Seq<char>>| #[trigger]
                rows_of(table@).contains(row) <==> reason_seen(more, row) by {
                assert(before.contains(row) <==> reason_seen(some, row));
                if reason_seen(some, row) {
                    let k = choose|k: int|
                        0 <= k < some.len() && !(#[trigger] some[k]).ok && (
                        some[k].reason matches Some(reason) && row == seq![reason@]);
                    assert(more[k] == some[k]);
                }
                assert(more[i as int] == item);
                if reason_seen(more, row) {
                    let k = choose|k: int|
                        0 <= k < more.len() && !(#[trigger] more[k]).ok && (
                        more[k].reason matches Some(reason) && row == seq![reason@]);
                    if k < i {
                        assert(some[k] == more[k]);
                    }
                }
            }
        }
        i += 1;
    }
    assert(items@.take(i as int) =~= items@);
    table
}

fn count_symbol(items: &Vec<SeriesHealth>, symbol: String) -> (r: SymbolHealthSummary)
    ensures
        r.symbol == symbol,
        symbol_counted(items@, r),
{
    let ghost all = |item: SeriesHealth| of_symbol(item, symbol@);
    let ghost good = |item: SeriesHealth| of_symbol(item, symbol@) && item.ok;
    let ghost poor = |item: SeriesHealth| of_symbol(item, symbol@) && !item.ok;
    let mut total: usize = 0;
    let mut ok: usize = 0;
    let mut bad: usize = 0;
    let mut i: usize = 0;
    assert(items@.take(0).filter(all).len() == 0 && items@.take(0).filter(good).len() == 0
        && items@.take(0).filter(poor).len() == 0) by {
        reveal(Seq::filter);
    }
    while i < items.len()
        invariant
            i <= items@.len(),
            total <= i,
            ok <= i,
            bad <= i,
            all == (|item: SeriesHealth| of_symbol(item, symbol@)),
            good == (|item: SeriesHealth| of_symbol(item, symbol@) && item.ok),
            poor == (|item: SeriesHealth| of_symbol(item, symbol@) && !item.ok),
            total == items@.take(i as int).filter(all).len(),
            ok == items@.take(i as int).filter(good).len(),
            bad == items@.take(i as int).filter(poor).len(),
        decreases items@.len() - i,
    {
        assert(items@.take(i + 1).drop_last() =~= items@.take(i as int));
        proof {
            reveal(Seq::filter);
        }
        if same_text(items[i].symbol.as_str(), symbol.as_str()) {
            total += 1;
            if items[i].ok {
                ok += 1;
            } else {
                bad += 1;
            }
        }
        i += 1;
    }
    assert(items@.take(i as int) =~= items@);
    SymbolHealthSummary { symbol, total, ok, bad }
}

fn count_reason(items: &Vec<SeriesHealth>, reason: String) -> (r: HealthReasonSummary)
    ensures
        r.reason == reason,
        r.count == count_of(items@, |item: SeriesHealth| bad_for(item, reason@)),
{
    let ghost test = |item: SeriesHealth| bad_for(item, reason@);
    let mut count: usize = 0;
    let mut i: usize = 0;
    assert(items@.take(0).filter(test).len() == 0) by {
        reveal(Seq::filter);
    }
    while i < items.len()
        invariant
            i <= items@.len(),
            count <= i,
            test == (|item: SeriesHealth| bad_for(item, reason@)),
            count == items@.take(i as int).filter(test).len(),
        decreases items@.len() - i,
    {
        assert(items@.take(i + 1).drop_last() =~= items@.take(i as int));
        proof {
            reveal(Seq::filter);
        }
        if !items[i].ok {
            match items[i].reason {
                Some(given) => {
                    if same_text(given, reason.as_str()) {
                        count += 1;
                    }
                },
                None => {},
            }
        }
        i += 1;
    }
    assert(items@.take(i as int) =~= items@);
    HealthReasonSummary { reason, count }
}

fn sum_symbols(items: &Vec<SeriesHealth>) -> (r: Vec<SymbolHealthSummary>)
    ensures
        symbols_summed(items@, r@),
{
    let table = symbol_table(items);
    let ghost rows = rows_of(table@);
    let mut out: Vec<SymbolHealthSummary> = Vec::new();
    let mut i: usize = 0;
    while i < table.len()
        invariant
            i <= table@.len(),
            rows == rows_of(table@),
            forall|row: Seq<Seq<char>>| #[trigger]
                rows.contains(row) <==> symbol_seen(items@, row),
            out@.len() == i,
            forall|j: int| 0 <= j < i ==> symbol_names(out@)[j] == #[trigger] rows[j],
            forall|j: int| 0 <= j < i ==> symbol_counted(items@, #[trigger] out@[j]),
        decreases table@.len() - i,
    {
        assert(rows.contains(rows[i as int]));
        assert(rows[i as int].len() == 1);
        assert(rows[i as int].len() == table@[i as int]@.len());
        let name = table[i][0].clone();
        out.push(count_symbol(items, name));
        assert(symbol_names(out@)[i as int] =~= rows[i as int]);
        i += 1;
    }
    assert(symbol_names(out@) =~= rows);
    out
}

fn sum_reasons(items: &Vec<SeriesHealth>) -> (r: Vec<HealthReasonSummary>)
    ensures
        reasons_summed(items@, r@),
{
    let table = reason_table(items);
    let ghost rows = rows_of(table@);
    let mut out: Vec<HealthReasonSummary> = Vec::new();
    let mut i: usize = 0;
    while i < table.len()
        invariant
            i <= table@.len(),
            rows == rows_of(table@),
            forall|row: Seq<Seq<char>>| #[trigger]
                rows.contains(row) <==> reason_seen(items@, row),
            out@.len() == i,
            forall|j: int| 0 <= j < i ==> reason_names(out@)[j] == #[trigger] rows[j],
            forall|j: int|
                0 <= j < i ==> (#[trigger] out@[j]).count == count_of(
                    items@,
                    |item: SeriesHealth| bad_for(item, out@[j].reason@),
                ),
        decreases table@.len() - i,
    {
        assert(rows.contains(rows[i as int]));
        assert(rows[i as int].len() == 1);
        assert(rows[i as int].len() == table@[i as int]@.len());
        let name = table[i][0].clone();
        out.push(count_reason(items, name));
        assert(reason_names(out@)[i as int] =~= rows[i as int]);
        i += 1;
    }
    assert(reason_names(out@) =~= rows);
    out
}

/// The health of the service in numbers.
pub fn health_summary(deep: &DeepHealthResponse, server_time: i64) -> (r: HealthSummaryResponse)
    ensures
        r.ok == deep.ok,
        r.websocket_ok == deep.websocket.ok,
        r.total_series == deep.series@.len(),
        r.ok_series == count_of(deep.series@, |item: SeriesHealth| item.ok),
        r.bad_series == deep.series@.len() - count_of(deep.series@, |item: SeriesHealth| item.ok),
        symbols_summed(deep.series@, r.symbols@),
        reasons_summed(deep.series@, r.reasons@),
        r.server_time == server_time,
{
    let ghost good = |item: SeriesHealth| item.ok;
    let items = &deep.series;
    let mut ok_series: usize = 0;
    let mut i: usize = 0;
    assert(items@.take(0).filter(good).len() == 0) by {
        reveal(Seq::filter);
    }
    while i < items.len()
        invariant
            i <= items@.len(),
            ok_series <= i,
            good == (|item: SeriesHealth| item.ok),
            ok_series == items@.take(i as int).filter(good).len(),
        decreases items@.len() - i,
    {
        assert(items@.take(i + 1).drop_last() =~= items@.take(i as int));
        proof {
            reveal(Seq::filter);
        }
        if items[i].ok {
            ok_series += 1;
        }
        i += 1;
    }
    assert(items@.take(i as int) =~= items@);
    HealthSummaryResponse {
        ok: deep.ok,
        websocket_ok: deep.websocket.ok,
        total_series: items.len(),
        ok_series,
        bad_series: items.len() - ok_series,
        symbols: sum_symbols(items),
        reasons: sum_reasons(items),
        server_time,
    }
}

/// For each symbol the good and the bad series are all series.
pub proof fn symbol_numbers_add_up(items: Seq<SeriesHealth>, summary: SymbolHealthSummary)
    requires
        symbol_counted(items, summary),
    ensures
        summary.total == summary.ok + summary.bad,
{
    counts_add_up(items, summary.symbol@);
}

proof fn counts_add_up(items: Seq<SeriesHealth>, symbol: Seq<char>)
    ensures
        count_of(items, |item: SeriesHealth| of_symbol(item, symbol)) == count_of(
            items,
            |item: SeriesHealth| of_symbol(item, symbol) && item.ok,
        ) + count_of(items, |item: SeriesHealth| of_symbol(item, symbol) && !item.ok),
    decreases items.len(),
{
    reveal(Seq::filter);
    if items.len() > 0 {
        counts_add_up(items.drop_last(), symbol);
    }
}

/// While no newer candle comes, the lag never shrinks, as long as it can be
/// told in 32 bits. Weeks need instants that the calendar holds.
pub proof fn lag_grows_with_time(interval: Interval, latest_open_time: int, now_ms: int, later_ms: int)
    requires
        interval.millis() > 0,
        interval is Weeks ==> crate::domain::interval::in_calendar(now_ms)
            && crate::domain::interval::in_calendar(later_ms),
        now_ms <= later_ms,
    ensures
        intervals_behind(interval, latest_open_time, now_ms) <= intervals_behind(
            interval,
            latest_open_time,
            later_ms,
        ),
        intervals_behind(interval, latest_open_time, later_ms) <= u32::MAX ==> lag(
            interval,
            latest_open_time,
            now_ms,
        ) <= lag(interval, latest_open_time, later_ms),
{
    crate::domain::interval::buckets_follow_time(interval, now_ms, later_ms);
    let a = interval.bucket(now_ms) - latest_open_time;
    let b = interval.bucket(later_ms) - latest_open_time;
    vstd::arithmetic::div_mod::lemma_div_is_ordered(a, b, interval.millis());
    if b > 0 {
        vstd::arithmetic::div_mod::lemma_div_pos_is_pos(b, interval.millis());
    }
}

// ---------------------------------------------------------------------------
// When a series is well.
// ---------------------------------------------------------------------------

/// A series of intervals of a minute or more is well exactly if its newest
/// closed candle is at most two whole intervals behind the bucket of now; one
/// of shorter intervals, at most four. The lag that is told is the number of
/// whole intervals.
pub proof fn series_are_well_up_to_the_allowed_lag(
    symbol: Seq<char>,
    interval: Interval,
    candles_desc: Seq<Candle>,
    now_ms: int,
    r: SeriesHealth,
)
    requires
        interval.supported(),
        candles_desc.len() > 0,
        health_told(symbol, interval, candles_desc, now_ms, r),
        interval.bucket(now_ms) - candles_desc[0].open_time < 0x1_0000_0000 * interval.millis(),
    ensures
        ({
            let step = interval.millis();
            let behind = interval.bucket(now_ms) - candles_desc[0].open_time;
            &&& step >= 60_000 ==> (r.ok <==> behind < 3 * step)
            &&& step < 60_000 ==> (r.ok <==> behind < 5 * step)
            &&& r.latest_lag_intervals matches Some(told) && (if behind <= 0 {
                told == 0
            } else {
                told * step <= behind < (told + 1) * step
            })
        }),
{
    let step = interval.millis();
    let behind = interval.bucket(now_ms) - candles_desc[0].open_time;
    assert(step > 0);
    if behind > 0 {
        let q = behind / step;
        vstd::arithmetic::div_mod::lemma_fundamental_div_mod(behind, step);
        vstd::arithmetic::mul::lemma_mul_is_commutative(step, q);
        vstd::arithmetic::mul::lemma_mul_is_distributive_add_other_way(step, q, 1);
        vstd::arithmetic::div_mod::lemma_div_pos_is_pos(behind, step);
        assert(q < 0x1_0000_0000) by (nonlinear_arith)
            requires
                q * step <= behind,
                behind < 0x1_0000_0000 * step,
                step > 0,
        ;
        assert((q <= 2 <==> behind < 3 * step) && (q <= 4 <==> behind < 5 * step))
            by (nonlinear_arith)
            requires
                q * step <= behind,
                behind < (q + 1) * step,
                step > 0,
        ;
    }
}

/// A series whose newest closed candle is that of the bucket before now is
/// well, whatever supported interval it has, and so is one that is one more
/// interval behind.
pub proof fn series_that_keep_up_are_well(
    symbol: Seq<char>,
    interval: Interval,
    candles_desc: Seq<Candle>,
    now_ms: int,
    r: SeriesHealth,
)
    requires
        interval.supported(),
        candles_desc.len() > 0,
        health_told(symbol, interval, candles_desc, now_ms, r),
        interval.bucket(now_ms) - 2 * interval.millis() <= candles_desc[0].open_time,
    ensures
        r.ok,
        r.reason is None,
        candles_desc[0].open_time == interval.bucket(now_ms) - interval.millis()
            ==> r.latest_lag_intervals == Some(1u32),
{
    let step = interval.millis();
    assert(step > 0);
    series_are_well_up_to_the_allowed_lag(symbol, interval, candles_desc, now_ms, r);
    if candles_desc[0].open_time == interval.bucket(now_ms) - step {
        let told = r.latest_lag_intervals->0;
        assert(told == 1) by (nonlinear_arith)
            requires
                told * step <= step,
                step < (told + 1) * step,
                step > 0,
                told >= 0,
        ;
    }
}

/// The health of a series names the newest candle and what is wrong, if
/// anything is: that there is no candle, or that the newest is too old.
pub proof fn health_names_what_is_wrong(
    symbol: Seq<char>,
    interval: Interval,
    candles_desc: Seq<Candle>,
    now_ms: int,
    r: SeriesHealth,
)
    requires
        health_told(symbol, interval, candles_desc, now_ms, r),
    ensures
        r.symbol@ == uppercase(symbol) && r.interval@ == interval.name(),
        r.ok <==> r.reason is None,
        candles_desc.len() == 0 <==> (r.reason matches Some(reason) && reason@
            == "no closed candles"@),
        candles_desc.len() > 0 && !r.ok <==> (r.reason matches Some(reason) && reason@
            == "latest candle is stale"@),
        candles_desc.len() == 0 <==> r.latest_open_time is None,
        candles_desc.len() == 0 <==> r.latest_lag_intervals is None,
        r.latest_open_time matches Some(time) ==> time == candles_desc[0].open_time,
        r.checked_bars == candles_desc.len(),
        r.source@ == "memory"@ <==> interval.millis() < 60_000,
        r.source@ == "sqlite"@ <==> interval.millis() >= 60_000,
{
    reveal_strlit("memory");
    reveal_strlit("sqlite");
    reveal_strlit("no closed candles");
    reveal_strlit("latest candle is stale");
    assert("memory"@[0] == 'm' && "sqlite"@[0] == 's');
    assert("no closed candles"@.len() == 17 && "latest candle is stale"@.len() == 22);
}

/// The bars that are counted follow each other at the distance of one interval,
/// and the next one, where there is one, does not follow at that distance.
pub proof fn counted_bars_are_one_interval_apart(
    symbol: Seq<char>,
    interval: Interval,
    candles_desc: Seq<Candle>,
    now_ms: int,
    r: SeriesHealth,
)
    requires
        health_told(symbol, interval, candles_desc, now_ms, r),
    ensures
        ({
            let n = r.consecutive_bars_from_latest as int;
            &&& n <= candles_desc.len()
            &&& n == 0 <==> candles_desc.len() == 0
            &&& forall|i: int, j: int|
                0 <= i && j == i + 1 && j < n ==> (#[trigger] candles_desc[i]).open_time - (
                #[trigger] candles_desc[j]).open_time == interval.millis()
            &&& 0 < n < candles_desc.len() ==> candles_desc[n - 1].open_time
                - candles_desc[n].open_time != interval.millis()
        }),
{
    let n = r.consecutive_bars_from_latest as int;
    let step = interval.millis();
    assert forall|i: int, j: int| 0 <= i && j == i + 1 && j < n implies (
    #[trigger] candles_desc[i]).open_time - (#[trigger] candles_desc[j]).open_time == step by {
        vstd::arithmetic::mul::lemma_mul_is_distributive_add_other_way(step, i, 1);
    }
    if 0 < n < candles_desc.len() {
        vstd::arithmetic::mul::lemma_mul_is_distributive_add_other_way(step, n - 1, 1);
        assert(candles_desc[n - 1].open_time == candles_desc[0].open_time - (n - 1) * step);
    }
}

/// A series is judged by its newest rows: the last five thousand, or all where
/// there are not so many, the newest first.
pub proof fn the_newest_rows_are_looked_at(rows: Seq<KlineView>)
    ensures
        scanned(rows).len() <= rows.len() && scanned(rows).len() <= 5_000,
        scanned(rows).len() == rows.len() || scanned(rows).len() == 5_000,
        forall|i: int|
            0 <= i < scanned(rows).len() ==> #[trigger] scanned(rows)[i] == rows[rows.len() - 1
                - i].candle,
{
}

/// The places of the items that meet a condition.
pub open spec fn places_of(items: Seq<SeriesHealth>, test: spec_fn(SeriesHealth) -> bool) -> Set<
    int,
> {
    Set::new(|i: int| 0 <= i < items.len() && test(items[i]))
}

proof fn counts_are_places(items: Seq<SeriesHealth>, test: spec_fn(SeriesHealth) -> bool)
    ensures
        places_of(items, test).finite(),
        count_of(items, test) == places_of(items, test).len(),
    decreases items.len(),
{
    reveal(Seq::filter);
    let places = places_of(items, test);
    if items.len() == 0 {
        assert(places =~= Set::<int>::empty());
    } else {
        let fewer = items.drop_last();
        counts_are_places(fewer, test);
        let n = items.len() - 1;
        assert(!places_of(fewer, test).contains(n));
        if test(items.last()) {
            assert(places =~= places_of(fewer, test).insert(n));
        } else {
            assert(places =~= places_of(fewer, test));
        }
    }
}

/// A summary counts each series at its own place: under its symbol, as well or
/// bad, and where it is bad under its reason. Each symbol of the series, and
/// each reason of a bad one, has one entry, and nothing else has.
pub proof fn summaries_count_each_series(
    items: Seq<SeriesHealth>,
    symbols: Seq<SymbolHealthSummary>,
    reasons: Seq<HealthReasonSummary>,
)
    requires
        symbols_summed(items, symbols),
        reasons_summed(items, reasons),
    ensures
        forall|k: int|
            #![trigger symbols[k]]
            0 <= k < symbols.len() ==> {
                &&& symbols[k].total == places_of(
                    items,
                    |item: SeriesHealth| item.symbol@ == symbols[k].symbol@,
                ).len()
                &&& symbols[k].ok == places_of(
                    items,
                    |item: SeriesHealth| item.symbol@ == symbols[k].symbol@ && item.ok,
                ).len()
                &&& symbols[k].bad == symbols[k].total - symbols[k].ok
                &&& symbols[k].total > 0
            },
        forall|k: int|
            #![trigger reasons[k]]
            0 <= k < reasons.len() ==> {
                &&& reasons[k].count == places_of(
                    items,
                    |item: SeriesHealth|
                        !item.ok && (item.reason matches Some(given) && given@
                            == reasons[k].reason@),
                ).len()
                &&& reasons[k].count > 0
            },
        forall|i: int|
            0 <= i < items.len() ==> exists|k: int|
                0 <= k < symbols.len() && (#[trigger] symbols[k]).symbol@ == (
                #[trigger] items[i]).symbol@,
        forall|i: int|
            0 <= i < items.len() && !(#[trigger] items[i]).ok ==> (items[i].reason matches Some(
                given,
            ) ==> exists|k: int|
                0 <= k < reasons.len() && (#[trigger] reasons[k]).reason@ == given@),
{
    assert forall|k: int| #![trigger symbols[k]] 0 <= k < symbols.len() implies {
        &&& symbols[k].total == places_of(
            items,
            |item: SeriesHealth| item.symbol@ == symbols[k].symbol@,
        ).len()
        &&& symbols[k].ok == places_of(
            items,
            |item: SeriesHealth| item.symbol@ == symbols[k].symbol@ && item.ok,
        ).len()
        &&& symbols[k].bad == symbols[k].total - symbols[k].ok
        &&& symbols[k].total > 0
    } by {
        let symbol = symbols[k].symbol@;
        assert(symbol_counted(items, symbols[k]));
        let all = |item: SeriesHealth| of_symbol(item, symbol);
        let good = |item: SeriesHealth| of_symbol(item, symbol) && item.ok;
        counts_are_places(items, all);
        counts_are_places(items, good);
        counts_add_up(items, symbol);
        assert(places_of(items, all) =~= places_of(
            items,
            |item: SeriesHealth| item.symbol@ == symbols[k].symbol@,
        ));
        assert(places_of(items, good) =~= places_of(
            items,
            |item: SeriesHealth| item.symbol@ == symbols[k].symbol@ && item.ok,
        ));
        assert(symbol_names(symbols)[k] == seq![symbol]);
        assert(symbol_names(symbols).contains(seq![symbol]));
        assert(symbol_seen(items, seq![symbol]));
        let i = choose|i: int|
            0 <= i < items.len() && seq![symbol] == seq![(#[trigger] items[i]).symbol@];
        assert(seq![symbol][0] == seq![items[i].symbol@][0]);
        assert(places_of(items, all).contains(i));
        if places_of(items, all).len() == 0 {
            assert(places_of(items, all) =~= Set::<int>::empty());
        }
    }
    assert forall|k: int| #![trigger reasons[k]] 0 <= k < reasons.len() implies {
        &&& reasons[k].count == places_of(
            items,
            |item: SeriesHealth|
                !item.ok && (item.reason matches Some(given) && given@ == reasons[k].reason@),
        ).len()
        &&& reasons[k].count > 0
    } by {
        let reason = reasons[k].reason@;
        let bad = |item: SeriesHealth| bad_for(item, reasons[k].reason@);
        counts_are_places(items, bad);
        assert(places_of(items, bad) =~= places_of(
            items,
            |item: SeriesHealth|
                !item.ok && (item.reason matches Some(given) && given@ == reasons[k].reason@),
        ));
        assert(reason_names(reasons)[k] == seq![reason]);
        assert(reason_names(reasons).contains(seq![reason]));
        assert(reason_seen(items, seq![reason]));
        let i = choose|i: int|
            0 <= i < items.len() && !(#[trigger] items[i]).ok && (items[i].reason matches Some(given)
                && seq![reason] == seq![given@]);
        assert(seq![reason][0] == seq![items[i].reason->0@][0]);
        assert(places_of(items, bad).contains(i));
        if places_of(items, bad).len() == 0 {
            assert(places_of(items, bad) =~= Set::<int>::empty());
        }
    }
    assert forall|i: int| 0 <= i < items.len() implies exists|k: int|
        0 <= k < symbols.len() && (#[trigger] symbols[k]).symbol@ == (
        #[trigger] items[i]).symbol@ by {
        let row = seq![items[i].symbol@];
        assert(symbol_seen(items, row));
        assert(symbol_names(symbols).contains(row));
        let k = choose|k: int| 0 <= k < symbols.len() && symbol_names(symbols)[k] == row;
        assert(seq![symbols[k].symbol@][0] == row[0]);
    }
    assert forall|i: int| 0 <= i < items.len() && !(#[trigger] items[i]).ok implies (
    items[i].reason matches Some(given) ==> exists|k: int|
        0 <= k < reasons.len() && (#[trigger] reasons[k]).reason@ == given@) by {
        if let Some(given) = items[i].reason {
            let row = seq![given@];
            assert(reason_seen(items, row));
            assert(reason_names(reasons).contains(row));
            let k = choose|k: int| 0 <= k < reasons.len() && reason_names(reasons)[k] == row;
            assert(seq![reasons[k].reason@][0] == row[0]);
        }
    }
}

/// A series is well up to two intervals behind, and up to four where they are
/// shorter than a minute, and not beyond; told of the check itself.
pub proof fn checks_allow_the_lag_and_no_more(
    symbol: &str,
    interval: Interval,
    candles_desc: Vec<Candle>,
    now_ms: i64,
    allowed: u32,
    r: SeriesHealth,
)
    requires
        interval.supported(),
        candles_desc@.len() > 0,
        call_ensures(max_allowed_lag_intervals, (&interval,), allowed),
        call_ensures(series_health, (symbol, &interval, &candles_desc, now_ms), r),
        interval.bucket(now_ms as int) - candles_desc@[0].open_time < 0x1_0000_0000
            * interval.millis(),
    ensures
        interval.millis() >= 60_000 ==> allowed == 2,
        interval.millis() < 60_000 ==> allowed == 4,
        r.ok <==> interval.bucket(now_ms as int) - candles_desc@[0].open_time < (allowed + 1)
            * interval.millis(),
{
    series_are_well_up_to_the_allowed_lag(
        symbol@,
        interval,
        candles_desc@,
        now_ms as int,
        r,
    );
}

/// The service is well exactly if its stream is and every series is: one that
/// is bad makes it bad.
pub proof fn one_bad_series_is_enough(
    websocket: WebSocketHealth,
    series: Vec<SeriesHealth>,
    r: DeepHealthResponse,
    i: int,
)
    requires
        call_ensures(deep_health, (websocket, series), r),
        0 <= i < series@.len(),
    ensures
        !series@[i].ok ==> !r.ok,
        !websocket.ok ==> !r.ok,
        r.ok ==> series@[i].ok && websocket.ok,
        websocket.ok && !r.ok ==> exists|k: int| 0 <= k < series@.len() && !(#[trigger] series@[k]).ok,
        r.series@ == series@ && r.websocket == websocket,
{
}

/// A summary counts every series as well or as bad, and is well as the service
/// is.
pub proof fn summaries_count_all_series(
    deep: DeepHealthResponse,
    server_time: i64,
    r: HealthSummaryResponse,
)
    requires
        call_ensures(health_summary, (&deep, server_time), r),
    ensures
        r.ok_series + r.bad_series == r.total_series,
        r.total_series == deep.series@.len(),
        r.ok_series == places_of(deep.series@, |item: SeriesHealth| item.ok).len(),
        r.ok == deep.ok && r.websocket_ok == deep.websocket.ok,
        r.server_time == server_time,
{
    counts_are_places(deep.series@, |item: SeriesHealth| item.ok);
}

/// The lag of every candle since the epoch can be told, at every time of the
/// calendar and for every interval.
pub proof fn every_lag_of_the_calendar_fits(interval: Interval, latest_open_time: int, now_ms: int)
    requires
        interval.supported(),
        0 <= latest_open_time,
        0 <= now_ms <= 8_210_266_876_799_999,
    ensures
        lag_fits(interval, latest_open_time, now_ms),
{
    assert(interval.millis() > 0);
    crate::domain::interval::instants_since_the_epoch_have_a_bucket(interval, now_ms);
}

} // verus!
