//! Answering for candles: stored rows, rows that wait to be written and the
//! open candle in one gapless series.

use crate::domain::candle::Candle;
use crate::domain::interval::Interval;
use crate::series::{in_window, newest};
use crate::storage::sqlite::{kline_views, KlineView, StoredKline};
use crate::text::{to_upper, uppercase};
use vstd::prelude::*;
use vstd::string::*;

pub use crate::http::alert_rules::{create_alert, update_alert, AlertPatch, AlertRequest};
pub use crate::http::health::{
    health, health_summary, latest_lag_intervals_at, DeepHealthResponse, HealthReasonSummary,
    HealthResponse, HealthSummaryResponse, SeriesHealth, SymbolHealthSummary,
};
pub use crate::http::queries::{GuailiQuery, KlineQuery};

verus! {

// ---------------------------------------------------------------------------
// Merging.
// ---------------------------------------------------------------------------

/// Each row opens before all later ones.
pub open spec fn rows_in_order(rows: Seq<KlineView>) -> bool {
    forall|i: int, j: int|
        0 <= i < j < rows.len() ==> (#[trigger] rows[i]).candle.open_time < (
        #[trigger] rows[j]).candle.open_time
}

/// `row` is number `i`, and no later row opens at the same time.
pub open spec fn stands(rows: Seq<KlineView>, i: int, row: KlineView) -> bool {
    &&& 0 <= i < rows.len()
    &&& rows[i] == row
    &&& forall|j: int|
        i < j < rows.len() ==> (#[trigger] rows[j]).candle.open_time != row.candle.open_time
}

/// `merged` has, in the order of time, the last row of each opening time.
pub open spec fn merges(rows: Seq<KlineView>, merged: Seq<KlineView>) -> bool {
    &&& rows_in_order(merged)
    &&& forall|row: KlineView| #[trigger]
        merged.contains(row) <==> exists|i: int| stands(rows, i, row)
}

fn put_kline(rows: &mut Vec<StoredKline>, row: StoredKline)
    requires
        rows_in_order(kline_views(old(rows)@)),
    ensures
        rows_in_order(kline_views(final(rows)@)),
        forall|x: KlineView| #[trigger]
            kline_views(final(rows)@).contains(x) <==> x == row@ || (kline_views(
                old(rows)@,
            ).contains(x) && x.candle.open_time != row.candle.open_time),
{
    let ghost views = kline_views(rows@);
    let t: i64 = row.candle.open_time;
    let mut at: usize = rows.len();
    while at > 0 && rows[at - 1].candle.open_time >= t
        invariant
            at <= rows@.len(),
            rows@ == old(rows)@,
            views == kline_views(rows@),
            rows_in_order(views),
            forall|i: int| at <= i < views.len() ==> (#[trigger] views[i]).candle.open_time >= t,
        decreases at,
    {
        at -= 1;
        assert(views[at as int].candle.open_time >= t);
        assert forall|i: int| at <= i < views.len() implies (
        #[trigger] views[i]).candle.open_time >= t by {
            if i > at {
                assert(views[at as int].candle.open_time < views[i].candle.open_time);
            }
        }
    }
    assert forall|i: int| 0 <= i < at implies (#[trigger] views[i]).candle.open_time < t by {
        assert(views[at - 1].candle.open_time < t);
        if i < at - 1 {
            assert(views[i].candle.open_time < views[at - 1].candle.open_time);
        }
    }
    let ghost view = row@;
    if at < rows.len() && rows[at].candle.open_time == t {
        assert(views[at as int].candle.open_time == t);
        rows.set(at, row);
        let ghost out = kline_views(rows@);
        assert(out =~= views.update(at as int, view));
        assert forall|i: int, j: int| 0 <= i < j < out.len() implies (
        #[trigger] out[i]).candle.open_time < (#[trigger] out[j]).candle.open_time by {
            assert(views[i].candle.open_time < views[j].candle.open_time);
        }
        assert forall|x: KlineView| #[trigger] out.contains(x) <==> x == view || (views.contains(x)
            && x.candle.open_time != t) by {
            if out.contains(x) {
                let k = choose|k: int| 0 <= k < out.len() && out[k] == x;
                if k != at {
                    assert(views[k] == x);
                    if k < at {
                        assert(views[k].candle.open_time < views[at as int].candle.open_time);
                    } else {
                        assert(views[at as int].candle.open_time < views[k].candle.open_time);
                    }
                }
            }
            if x == view {
                assert(out[at as int] == x);
            } else if views.contains(x) && x.candle.open_time != t {
                let k = choose|k: int| 0 <= k < views.len() && views[k] == x;
                assert(out[k] == x);
            }
        }
    } else {
        rows.insert(at, row);
        let ghost out = kline_views(rows@);
        assert(out =~= views.insert(at as int, view));
        proof {
            if at < views.len() {
                assert(views[at as int].candle.open_time != t);
            }
        }
        assert forall|i: int| at <= i < views.len() implies (
        #[trigger] views[i]).candle.open_time > t by {
            if i > at {
                assert(views[at as int].candle.open_time < views[i].candle.open_time);
            }
        }
        assert forall|i: int, j: int| 0 <= i < j < out.len() implies (
        #[trigger] out[i]).candle.open_time < (#[trigger] out[j]).candle.open_time by {
            if i < at {
                assert(out[i] == views[i]);
            } else if i > at {
                assert(out[i] == views[i - 1]);
            }
            if j < at {
                assert(out[j] == views[j]);
            } else if j > at {
                assert(out[j] == views[j - 1]);
            }
        }
        assert forall|x: KlineView| #[trigger] out.contains(x) <==> x == view || (views.contains(x)
            && x.candle.open_time != t) by {
            if out.contains(x) {
                let k = choose|k: int| 0 <= k < out.len() && out[k] == x;
                if k < at {
                    assert(views[k] == x);
                } else if k > at {
                    assert(views[k - 1] == x);
                }
            }
            if x == view {
                assert(out[at as int] == x);
            } else if views.contains(x) {
                let k = choose|k: int| 0 <= k < views.len() && views[k] == x;
                if k < at {
                    assert(out[k] == x);
                } else {
                    assert(out[k + 1] == x);
                }
            }
        }
    }
}

/// Which rows stand once one more has come.
proof fn stands_with_one_more(rows: Seq<KlineView>, last: KlineView, row: KlineView)
    ensures
        (exists|i: int| stands(rows.push(last), i, row)) <==> row == last || ((exists|i: int|
            stands(rows, i, row)) && row.candle.open_time != last.candle.open_time),
{
    let all = rows.push(last);
    if row == last {
        assert(stands(all, rows.len() as int, row));
    }
    if exists|i: int| stands(rows, i, row) && row.candle.open_time != last.candle.open_time {
        let i = choose|i: int|
            stands(rows, i, row) && row.candle.open_time != last.candle.open_time;
        assert forall|j: int| i < j < all.len() implies (#[trigger] all[j]).candle.open_time
            != row.candle.open_time by {
            if j < rows.len() {
                assert(all[j] == rows[j]);
            }
        }
        assert(stands(all, i, row));
    }
    if exists|i: int| stands(all, i, row) {
        let i = choose|i: int| stands(all, i, row);
        if i < rows.len() {
            assert(all[rows.len() as int].candle.open_time != row.candle.open_time);
            assert forall|j: int| i < j < rows.len() implies (#[trigger] rows[j]).candle.open_time
                != row.candle.open_time by {
                assert(all[j] == rows[j]);
            }
            assert(stands(rows, i, row));
        }
    }
}

fn put_all(merged: &mut Vec<StoredKline>, rows: &Vec<StoredKline>, Ghost(done): Ghost<
    Seq<KlineView>,
>)
    requires
        merges(done, kline_views(old(merged)@)),
    ensures
        merges(done + kline_views(rows@), kline_views(final(merged)@)),
{
    let ghost views = kline_views(rows@);
    let mut i: usize = 0;
    assert(done + views.take(0) =~= done);
    while i < rows.len()
        invariant
            i <= rows@.len(),
            views == kline_views(rows@),
            merges(done + views.take(i as int), kline_views(merged@)),
        decreases rows@.len() - i,
    {
        let ghost before = kline_views(merged@);
        let ghost so_far = done + views.take(i as int);
        put_kline(merged, rows[i].clone());
        proof {
            let row = views[i as int];
            assert(done + views.take(i + 1) =~= so_far.push(row));
            assert forall|x: KlineView| #[trigger]
                kline_views(merged@).contains(x) <==> exists|k: int|
                    stands(so_far.push(row), k, x) by {
                stands_with_one_more(so_far, row, x);
                assert(before.contains(x) <==> exists|k: int| stands(so_far, k, x));
            }
        }
        i += 1;
    }
    assert(views.take(i as int) =~= views);
}

/// Merges stored rows with rows that wait to be written, which count where
/// both have a time.
pub fn merge_kline_rows(persisted_rows: &Vec<StoredKline>, buffered_rows: &Vec<StoredKline>) -> (r:
    Vec<StoredKline>)
    ensures
        merges(kline_views(persisted_rows@) + kline_views(buffered_rows@), kline_views(r@)),
{
    let mut merged: Vec<StoredKline> = Vec::new();
    assert(merges(Seq::<KlineView>::empty(), kline_views(merged@)));
    put_all(&mut merged, persisted_rows, Ghost(Seq::<KlineView>::empty()));
    assert(Seq::<KlineView>::empty() + kline_views(persisted_rows@) =~= kline_views(
        persisted_rows@,
    ));
    put_all(&mut merged, buffered_rows, Ghost(kline_views(persisted_rows@)));
    merged
}

/// A merge is determined by its rows.
pub proof fn merges_are_determined(rows: Seq<KlineView>, a: Seq<KlineView>, b: Seq<KlineView>)
    requires
        merges(rows, a),
        merges(rows, b),
    ensures
        a == b,
{
    assert(forall|row: KlineView| a.contains(row) <==> b.contains(row));
    ordered_rows_are_determined(a, b);
}

proof fn ordered_rows_are_determined(a: Seq<KlineView>, b: Seq<KlineView>)
    requires
        rows_in_order(a),
        rows_in_order(b),
        forall|row: KlineView| a.contains(row) <==> b.contains(row),
    ensures
        a == b,
    decreases a.len(),
{
    if a.len() == 0 {
        if b.len() > 0 {
            assert(b.contains(b[0]));
            assert(a.contains(b[0]));
        }
        assert(a =~= b);
    } else {
        assert(a.contains(a.last()));
        assert(b.contains(a.last()));
        let k = choose|k: int| 0 <= k < b.len() && b[k] == a.last();
        assert(b.contains(b.last()));
        assert(a.contains(b.last()));
        let m = choose|m: int| 0 <= m < a.len() && a[m] == b.last();
        if k < b.len() - 1 {
            assert(b[k].candle.open_time < b.last().candle.open_time);
            if m < a.len() - 1 {
                assert(a[m].candle.open_time < a.last().candle.open_time);
            }
        }
        assert(a.last() == b.last());
        let x = a.drop_last();
        let y = b.drop_last();
        assert forall|row: KlineView| x.contains(row) <==> y.contains(row) by {
            if x.contains(row) {
                let i = choose|i: int| 0 <= i < x.len() && x[i] == row;
                assert(a[i] == row);
                assert(a[i].candle.open_time < a.last().candle.open_time);
                assert(b.contains(row));
                let j = choose|j: int| 0 <= j < b.len() && b[j] == row;
                assert(y[j] == row);
            }
            if y.contains(row) {
                let i = choose|i: int| 0 <= i < y.len() && y[i] == row;
                assert(b[i] == row);
                assert(b[i].candle.open_time < b.last().candle.open_time);
                assert(a.contains(row));
                let j = choose|j: int| 0 <= j < a.len() && a[j] == row;
                assert(x[j] == row);
            }
        }
        assert forall|i: int, j: int| 0 <= i < j < x.len() implies (#[trigger] x[i]).candle.open_time
            < (#[trigger] x[j]).candle.open_time by {
            assert(a[i].candle.open_time < a[j].candle.open_time);
        }
        assert forall|i: int, j: int| 0 <= i < j < y.len() implies (#[trigger] y[i]).candle.open_time
            < (#[trigger] y[j]).candle.open_time by {
            assert(b[i].candle.open_time < b[j].candle.open_time);
        }
        ordered_rows_are_determined(x, y);
        assert(a =~= x.push(a.last()));
        assert(b =~= y.push(b.last()));
    }
}

// ---------------------------------------------------------------------------
// Gaps.
// ---------------------------------------------------------------------------

/// Where the last gapless run of rows starts.
pub open spec fn run_start(rows: Seq<KlineView>, interval_ms: int) -> int
    decreases rows.len(),
{
    if rows.len() <= 1 {
        0
    } else if rows.last().candle.open_time - rows[rows.len() - 2].candle.open_time != interval_ms {
        rows.len() - 1
    } else {
        run_start(rows.drop_last(), interval_ms)
    }
}

/// The last gapless run of rows.
pub open spec fn last_run(rows: Seq<KlineView>, interval_ms: int) -> Seq<KlineView> {
    rows.skip(run_start(rows, interval_ms))
}

/// Each row opens one interval after the one before.
pub open spec fn gapless(rows: Seq<KlineView>, interval_ms: int) -> bool {
    forall|i: int, j: int|
        0 <= i && j == i + 1 && j < rows.len() ==> (#[trigger] rows[j]).candle.open_time - (
        #[trigger] rows[i]).candle.open_time == interval_ms
}

/// The last run is gapless, ends with the last row, and cannot be longer.
pub proof fn last_runs_are_gapless(rows: Seq<KlineView>, interval_ms: int)
    ensures
        0 <= run_start(rows, interval_ms) <= rows.len(),
        rows.len() > 0 ==> run_start(rows, interval_ms) < rows.len(),
        gapless(last_run(rows, interval_ms), interval_ms),
        rows.len() > 0 ==> last_run(rows, interval_ms).last() == rows.last(),
        run_start(rows, interval_ms) > 0 ==> rows[run_start(
            rows,
            interval_ms,
        )].candle.open_time - rows[run_start(rows, interval_ms) - 1].candle.open_time
            != interval_ms,
    decreases rows.len(),
{
    let start = run_start(rows, interval_ms);
    if rows.len() > 1 && rows.last().candle.open_time - rows[rows.len() - 2].candle.open_time
        == interval_ms {
        let shorter = rows.drop_last();
        last_runs_are_gapless(shorter, interval_ms);
        let run = last_run(rows, interval_ms);
        let inner = last_run(shorter, interval_ms);
        assert forall|i: int, j: int| 0 <= i && j == i + 1 && j < run.len() implies (
        #[trigger] run[j]).candle.open_time - (#[trigger] run[i]).candle.open_time
            == interval_ms by {
            assert(run[i] == rows[start + i]);
            assert(run[j] == rows[start + j]);
            if start + j < rows.len() - 1 {
                assert(inner[i] == rows[start + i]);
                assert(inner[j] == rows[start + j]);
            }
        }
    }
}

fn find_run_start(rows: &Vec<StoredKline>, interval_ms: i64) -> (r: usize)
    ensures
        r == run_start(kline_views(rows@), interval_ms as int),
        r <= rows@.len(),
{
    let ghost views = kline_views(rows@);
    let mut n: usize = rows.len();
    assert(views.take(n as int) =~= views);
    while n > 1
        invariant
            n <= rows@.len(),
            views == kline_views(rows@),
            run_start(views, interval_ms as int) == run_start(
                views.take(n as int),
                interval_ms as int,
            ),
        decreases n,
    {
        let ghost part = views.take(n as int);
        assert(part.last() == rows@[n - 1]@);
        assert(part[n - 2] == rows@[n - 2]@);
        let joined = match rows[n - 1].candle.open_time.checked_sub(rows[n - 2].candle.open_time) {
            Some(distance) => distance == interval_ms,
            None => false,
        };
        if !joined {
            return n - 1;
        }
        assert(part.drop_last() =~= views.take(n - 1));
        n -= 1;
    }
    0
}

/// Drops all rows before the last gap.
pub fn keep_latest_contiguous_rows(rows: &mut Vec<StoredKline>, interval_ms: i64)
    ensures
        kline_views(final(rows)@) == last_run(kline_views(old(rows)@), interval_ms as int),
{
    let at: usize = find_run_start(rows, interval_ms);
    let kept = rows.split_off(at);
    *rows = kept;
    assert(kline_views(rows@) =~= last_run(kline_views(old(rows)@), interval_ms as int));
}

// ---------------------------------------------------------------------------
// Answers.
// ---------------------------------------------------------------------------

/// Whether the candles of an interval are kept in memory only.
pub open spec fn held_in_memory(interval: Interval) -> bool {
    interval.millis() < 60_000
}

pub fn is_held_in_memory(interval: &Interval) -> (r: bool)
    ensures
        r == held_in_memory(*interval),
{
    interval.as_millis() < 60_000
}

/// How many rows to fetch: one more where open ones will be dropped.
pub fn fetch_limit(limit: u32, closed_only: bool) -> (r: u32)
    ensures
        r == if closed_only && limit < u32::MAX {
            limit + 1
        } else {
            limit as int
        },
{
    if closed_only && limit < u32::MAX {
        limit + 1
    } else {
        limit
    }
}

/// The rows with the open candle at the end, instead of the last row if that
/// opens at the same time; not if the last row is newer.
pub open spec fn with_open(rows: Seq<KlineView>, open: KlineView) -> Seq<KlineView> {
    if rows.len() == 0 || rows.last().candle.open_time < open.candle.open_time {
        rows.push(open)
    } else if rows.last().candle.open_time == open.candle.open_time {
        rows.drop_last().push(open)
    } else {
        rows
    }
}

/// The open candle if it is asked for.
pub open spec fn asked_open(
    latest: Option<Candle>,
    start: Option<i64>,
    end: Option<i64>,
    closed_only: bool,
) -> Option<Candle> {
    match latest {
        Some(candle) => if !closed_only && in_window(candle, start, end) {
            Some(candle)
        } else {
            None
        },
        None => None,
    }
}

/// The rows that are answered: with the open candle or without the rows that
/// are not closed, as asked for, the last `limit` of them, and of those the
/// last gapless run.
pub open spec fn served(
    rows: Seq<KlineView>,
    symbol: Seq<char>,
    interval: Interval,
    latest: Option<Candle>,
    start: Option<i64>,
    end: Option<i64>,
    limit: u32,
    closed_only: bool,
) -> Seq<KlineView> {
    let with_latest = match asked_open(latest, start, end, closed_only) {
        Some(candle) => with_open(
            rows,
            KlineView { symbol: uppercase(symbol), interval: interval.name(), candle },
        ),
        None => rows,
    };
    let kept = if closed_only {
        with_latest.filter(|row: KlineView| row.candle.is_closed)
    } else {
        with_latest
    };
    last_run(newest(kept, limit as int), interval.millis())
}

/// The rows to answer from: those in memory, or the stored ones merged with
/// those that wait to be written.
pub open spec fn base_rows(
    interval: Interval,
    stored: Seq<KlineView>,
    buffered: Seq<KlineView>,
    base: Seq<KlineView>,
) -> bool {
    if held_in_memory(interval) {
        base == stored
    } else {
        merges(stored + buffered, base)
    }
}

/// The rows to answer from are determined by what is stored and what waits.
pub proof fn base_rows_are_determined(
    interval: Interval,
    stored: Seq<KlineView>,
    buffered: Seq<KlineView>,
    a: Seq<KlineView>,
    b: Seq<KlineView>,
)
    requires
        base_rows(interval, stored, buffered, a),
        base_rows(interval, stored, buffered, b),
    ensures
        a == b,
{
    if !held_in_memory(interval) {
        merges_are_determined(stored + buffered, a, b);
    }
}

fn copy_klines(rows: &Vec<StoredKline>) -> (r: Vec<StoredKline>)
    ensures
        kline_views(r@) == kline_views(rows@),
{
    let mut out: Vec<StoredKline> = Vec::new();
    let mut i: usize = 0;
    while i < rows.len()
        invariant
            i <= rows@.len(),
            out@ == rows@.take(i as int),
        decreases rows@.len() - i,
    {
        out.push(rows[i].clone());
        i += 1;
        assert(out@ =~= rows@.take(i as int));
    }
    assert(out@ =~= rows@);
    out
}

fn append_open(rows: &mut Vec<StoredKline>, open: StoredKline)
    ensures
        kline_views(final(rows)@) == with_open(kline_views(old(rows)@), open@),
{
    let ghost views = kline_views(rows@);
    let n: usize = rows.len();
    if n == 0 {
        rows.push(open);
        assert(kline_views(rows@) =~= views.push(open@));
    } else {
        assert(views.last() == rows@[n - 1]@);
        let last: i64 = rows[n - 1].candle.open_time;
        if last == open.candle.open_time {
            rows.set(n - 1, open);
            assert(kline_views(rows@) =~= views.drop_last().push(open@));
        } else if last < open.candle.open_time {
            rows.push(open);
            assert(kline_views(rows@) =~= views.push(open@));
        }
    }
}

fn drop_open(rows: &Vec<StoredKline>) -> (r: Vec<StoredKline>)
    ensures
        kline_views(r@) == kline_views(rows@).filter(|row: KlineView| row.candle.is_closed),
{
    let ghost views = kline_views(rows@);
    let ghost keep = |row: KlineView| row.candle.is_closed;
    let mut out: Vec<StoredKline> = Vec::new();
    let mut i: usize = 0;
    assert(views.take(0).filter(keep) =~= Seq::<KlineView>::empty()) by {
        reveal(Seq::filter);
    }
    assert(kline_views(out@) =~= Seq::<KlineView>::empty());
    while i < rows.len()
        invariant
            i <= rows@.len(),
            views == kline_views(rows@),
            keep == (|row: KlineView| row.candle.is_closed),
            kline_views(out@) == views.take(i as int).filter(keep),
        decreases rows@.len() - i,
    {
        let ghost before = out@;
        assert(views.take(i + 1).drop_last() =~= views.take(i as int));
        assert(views[i as int] == rows@[i as int]@);
        proof {
            reveal(Seq::filter);
        }
        if rows[i].candle.is_closed {
            out.push(rows[i].clone());
            assert(kline_views(out@) =~= kline_views(before).push(views[i as int]));
        }
        i += 1;
    }
    assert(views.take(i as int) =~= views);
    out
}

/// Answers for a series. `stored` are the rows of the store, or of the memory
/// for an interval that is kept there; `buffered` are the rows that wait;
/// `latest` is the open candle.
pub fn query_kline_rows(
    symbol: &str,
    interval: Interval,
    stored: &Vec<StoredKline>,
    buffered: &Vec<StoredKline>,
    latest: Option<Candle>,
    start_time: Option<i64>,
    end_time: Option<i64>,
    limit: u32,
    closed_only: bool,
) -> (r: Vec<StoredKline>)
    ensures
        exists|base: Seq<KlineView>| #[trigger]
            base_rows(interval, kline_views(stored@), kline_views(buffered@), base) && kline_views(
                r@,
            ) == served(
                base,
                symbol@,
                interval,
                latest,
                start_time,
                end_time,
                limit,
                closed_only,
            ),
        r@.len() <= limit,
        gapless(kline_views(r@), interval.millis()),
{
    let mut rows = if is_held_in_memory(&interval) {
        copy_klines(stored)
    } else {
        merge_kline_rows(stored, buffered)
    };
    let ghost base = kline_views(rows@);
    match latest {
        Some(candle) => {
            let not_early = match start_time {
                Some(first) => candle.open_time >= first,
                None => true,
            };
            let not_late = match end_time {
                Some(last) => candle.open_time <= last,
                None => true,
            };
            if !closed_only && not_early && not_late {
                let row = StoredKline {
                    symbol: to_upper(symbol),
                    interval: interval.canonical(),
                    candle,
                };
                append_open(&mut rows, row);
            }
        },
        None => {},
    }
    if closed_only {
        rows = drop_open(&rows);
    }
    let ghost kept = kline_views(rows@);
    if rows.len() > limit as usize {
        let from: usize = rows.len() - limit as usize;
        let tail = rows.split_off(from);
        rows = tail;
    }
    assert(kline_views(rows@) =~= newest(kept, limit as int));
    proof {
        last_runs_are_gapless(kline_views(rows@), interval.millis());
    }
    keep_latest_contiguous_rows(&mut rows, interval.as_millis() as i64);
    assert(base_rows(interval, kline_views(stored@), kline_views(buffered@), base));
    assert(kline_views(rows@).len() == rows@.len());
    rows
}

/// One series of an answer. Times are milliseconds since the epoch.
#[derive(Debug)]
pub struct KlineSeries {
    pub interval: String,
    pub start_time: Option<i64>,
    pub end_time: Option<i64>,
    pub count: usize,
    pub data: Vec<StoredKline>,
}

/// The series of the rows, with the times of the first and the last.
pub fn kline_series(interval: &Interval, rows: Vec<StoredKline>) -> (r: KlineSeries)
    ensures
        r.interval@ == interval.name(),
        r.start_time == if rows@.len() > 0 {
            Some(rows@[0].candle.open_time)
        } else {
            None
        },
        r.end_time == if rows@.len() > 0 {
            Some(rows@.last().candle.open_time)
        } else {
            None
        },
        r.count == rows@.len(),
        r.data == rows,
{
    let count: usize = rows.len();
    let (start_time, end_time) = if count > 0 {
        (Some(rows[0].candle.open_time), Some(rows[count - 1].candle.open_time))
    } else {
        (None, None)
    };
    KlineSeries { interval: interval.canonical(), start_time, end_time, count, data: rows }
}

/// Answers with closed candles only have none that is open.
pub proof fn closed_answers_are_closed(
    rows: Seq<KlineView>,
    symbol: Seq<char>,
    interval: Interval,
    latest: Option<Candle>,
    start: Option<i64>,
    end: Option<i64>,
    limit: u32,
)
    ensures
        forall|row: KlineView| #[trigger]
            served(rows, symbol, interval, latest, start, end, limit, true).contains(row)
                ==> row.candle.is_closed && rows.contains(row),
{
    let kept = rows.filter(|row: KlineView| row.candle.is_closed);
    crate::series::filter_keeps(rows, |row: KlineView| row.candle.is_closed);
    let tail = newest(kept, limit as int);
    let out = last_run(tail, interval.millis());
    last_runs_are_gapless(tail, interval.millis());
    assert forall|row: KlineView| #[trigger] out.contains(row) implies row.candle.is_closed
        && rows.contains(row) by {
        let k = choose|k: int| 0 <= k < out.len() && out[k] == row;
        let from = run_start(tail, interval.millis());
        assert(tail[from + k] == row);
        let d = kept.len() - tail.len();
        assert(kept[d + from + k] == row);
        assert(kept.contains(row));
    }
}

// ---------------------------------------------------------------------------
// What an answer holds.
// ---------------------------------------------------------------------------

/// The instant lies in the window that was asked for.
pub open spec fn asked_for(start: Option<i64>, end: Option<i64>, t: i64) -> bool {
    &&& start is None || start->0 <= t
    &&& end is None || t <= end->0
}

/// An open candle that opens in the window that was asked for, and not before
/// the last row, ends the answer: it is the last row of it.
pub proof fn open_candles_in_the_window_end_the_answer(
    rows: Seq<KlineView>,
    symbol: Seq<char>,
    interval: Interval,
    candle: Candle,
    start: Option<i64>,
    end: Option<i64>,
    limit: u32,
)
    requires
        limit > 0,
        start matches Some(first) ==> first <= candle.open_time,
        end matches Some(last) ==> candle.open_time <= last,
        rows.len() > 0 ==> rows.last().candle.open_time <= candle.open_time,
    ensures
        ({
            let answer = served(rows, symbol, interval, Some(candle), start, end, limit, false);
            &&& answer.len() > 0
            &&& answer.last().candle == candle
            &&& answer.last().symbol == uppercase(symbol)
            &&& answer.last().interval == interval.name()
        }),
{
    let open = KlineView { symbol: uppercase(symbol), interval: interval.name(), candle };
    let kept = with_open(rows, open);
    assert(kept.len() > 0 && kept.last() == open);
    let cut = newest(kept, limit as int);
    assert(cut.len() > 0 && cut.last() == open);
    last_runs_are_gapless(cut, interval.millis());
}

/// An open candle outside the window that was asked for, or before the last
/// row, or where closed candles alone are asked for, changes nothing: the
/// answer is the one without it.
pub proof fn other_open_candles_are_not_served(
    rows: Seq<KlineView>,
    symbol: Seq<char>,
    interval: Interval,
    candle: Candle,
    start: Option<i64>,
    end: Option<i64>,
    limit: u32,
    closed_only: bool,
)
    requires
        ({
            ||| closed_only
            ||| start matches Some(first) && candle.open_time < first
            ||| end matches Some(last) && last < candle.open_time
            ||| rows.len() > 0 && candle.open_time < rows.last().candle.open_time
        }),
    ensures
        served(rows, symbol, interval, Some(candle), start, end, limit, closed_only) == served(
            rows,
            symbol,
            interval,
            None,
            start,
            end,
            limit,
            closed_only,
        ),
{
}

/// No row of an answer comes from elsewhere: it is a row of the base, or it
/// carries the open candle, in the window, and open candles are asked for.
pub proof fn answers_hold_rows_or_the_open_candle(
    rows: Seq<KlineView>,
    symbol: Seq<char>,
    interval: Interval,
    latest: Option<Candle>,
    start: Option<i64>,
    end: Option<i64>,
    limit: u32,
    closed_only: bool,
    i: int,
)
    requires
        0 <= i < served(rows, symbol, interval, latest, start, end, limit, closed_only).len(),
    ensures
        ({
            let answer = served(rows, symbol, interval, latest, start, end, limit, closed_only);
            ||| rows.contains(answer[i])
            ||| {
                &&& !closed_only
                &&& i == answer.len() - 1
                &&& latest == Some(answer[i].candle)
                &&& asked_for(start, end, answer[i].candle.open_time)
            }
        }),
{
    let answer = served(rows, symbol, interval, latest, start, end, limit, closed_only);
    if closed_only {
        closed_answers_are_closed(rows, symbol, interval, latest, start, end, limit);
        assert(answer.contains(answer[i]));
    } else {
        let kept = match asked_open(latest, start, end, closed_only) {
            Some(candle) => with_open(
                rows,
                KlineView { symbol: uppercase(symbol), interval: interval.name(), candle },
            ),
            None => rows,
        };
        let cut = newest(kept, limit as int);
        last_runs_are_gapless(cut, interval.millis());
        let at = i + run_start(cut, interval.millis()) + (kept.len() - cut.len());
        assert(answer[i] == kept[at]);
        if at < kept.len() - 1 {
            assert(kept[at] == rows[at]);
        }
    }
}

/// The answer is the end of what there is, as far back as it has no gap and as
/// the limit lets it go, and no less: where it stops short of the first row, it
/// holds as many rows as the limit says, or there is a gap before it. `kept` is
/// what there is: the rows, or the closed ones of them.
pub proof fn answers_are_the_longest_gapless_end(
    rows: Seq<KlineView>,
    kept: Seq<KlineView>,
    symbol: Seq<char>,
    interval: Interval,
    start: Option<i64>,
    end: Option<i64>,
    limit: u32,
    closed_only: bool,
)
    requires
        !closed_only ==> kept == rows,
        closed_only ==> kept == rows.filter(|row: KlineView| row.candle.is_closed),
    ensures
        ({
            let answer = served(rows, symbol, interval, None, start, end, limit, closed_only);
            let n = answer.len() as int;
            let first = kept.len() - n;
            &&& n <= limit && n <= kept.len()
            &&& answer == kept.skip(first)
            &&& n == 0 <==> limit == 0 || kept.len() == 0
            &&& forall|i: int, j: int|
                0 <= i && j == i + 1 && j < n ==> (#[trigger] answer[j]).candle.open_time - (
                #[trigger] answer[i]).candle.open_time == interval.millis()
            &&& 0 < n < limit && first > 0 ==> kept[first].candle.open_time - kept[first
                - 1].candle.open_time != interval.millis()
        }),
{
    let answer = served(rows, symbol, interval, None, start, end, limit, closed_only);
    let cut = newest(kept, limit as int);
    assert(answer == last_run(cut, interval.millis()));
    last_runs_are_gapless(cut, interval.millis());
    let n = answer.len() as int;
    assert(answer =~= kept.skip(kept.len() - n));
}

/// Where closed candles alone are asked for, each one of the base that has a
/// place in the answer's stretch of time is in it, and an open one never is.
pub proof fn open_rows_are_left_out(
    rows: Seq<KlineView>,
    symbol: Seq<char>,
    interval: Interval,
    latest: Option<Candle>,
    start: Option<i64>,
    end: Option<i64>,
    limit: u32,
)
    ensures
        served(rows, symbol, interval, latest, start, end, limit, true) == served(
            rows.filter(|row: KlineView| row.candle.is_closed),
            symbol,
            interval,
            None,
            start,
            end,
            limit,
            false,
        ),
{
}

/// For an interval of a minute or more the base has the rows that wait to be
/// written and the stored ones, in the order of time; where both have a time,
/// the waiting row counts. For a shorter interval it has the rows in memory.
pub proof fn waiting_rows_count_before_stored_ones(
    interval: Interval,
    stored: Seq<KlineView>,
    buffered: Seq<KlineView>,
    base: Seq<KlineView>,
)
    requires
        base_rows(interval, stored, buffered, base),
        rows_in_order(stored),
        rows_in_order(buffered),
    ensures
        interval.millis() < 60_000 ==> base == stored,
        interval.millis() >= 60_000 ==> {
            &&& forall|i: int, j: int|
                0 <= i < j < base.len() ==> (#[trigger] base[i]).candle.open_time < (
                #[trigger] base[j]).candle.open_time
            &&& forall|row: KlineView| #[trigger]
                base.contains(row) <==> buffered.contains(row) || (stored.contains(row) && forall|
                    k: int,
                |
                    0 <= k < buffered.len() ==> (#[trigger] buffered[k]).candle.open_time
                        != row.candle.open_time)
        },
{
    if interval.millis() >= 60_000 {
        let all = stored + buffered;
        assert forall|row: KlineView| #[trigger]
            base.contains(row) <==> buffered.contains(row) || (stored.contains(row) && forall|k: int|
                0 <= k < buffered.len() ==> (#[trigger] buffered[k]).candle.open_time
                    != row.candle.open_time) by {
            if base.contains(row) {
                let i = choose|i: int| stands(all, i, row);
                if i < stored.len() {
                    assert(stored[i] == row);
                    assert forall|k: int| 0 <= k < buffered.len() implies (
                    #[trigger] buffered[k]).candle.open_time != row.candle.open_time by {
                        assert(all[stored.len() + k] == buffered[k]);
                    }
                } else {
                    assert(buffered[i - stored.len()] == row);
                }
            }
            if buffered.contains(row) {
                let k = choose|k: int| 0 <= k < buffered.len() && buffered[k] == row;
                let i = stored.len() + k;
                assert(all[i] == row);
                assert forall|j: int| i < j < all.len() implies (#[trigger] all[j]).candle.open_time
                    != row.candle.open_time by {
                    assert(all[j] == buffered[j - stored.len()]);
                    assert(buffered[k].candle.open_time < buffered[j
                        - stored.len()].candle.open_time);
                }
                assert(stands(all, i, row));
            }
            if stored.contains(row) && (forall|k: int|
                0 <= k < buffered.len() ==> (#[trigger] buffered[k]).candle.open_time
                    != row.candle.open_time) {
                let i = choose|i: int| 0 <= i < stored.len() && stored[i] == row;
                assert(all[i] == row);
                assert forall|j: int| i < j < all.len() implies (#[trigger] all[j]).candle.open_time
                    != row.candle.open_time by {
                    if j < stored.len() {
                        assert(all[j] == stored[j]);
                        assert(stored[i].candle.open_time < stored[j].candle.open_time);
                    } else {
                        assert(all[j] == buffered[j - stored.len()]);
                    }
                }
                assert(stands(all, i, row));
            }
        }
    }
}

/// Where closed candles alone are asked for, one more row is fetched than is
/// told, in place of the open one that may be among them.
pub proof fn closed_answers_fetch_one_more(limit: u32, closed: u32, all: u32)
    requires
        call_ensures(fetch_limit, (limit, true), closed),
        call_ensures(fetch_limit, (limit, false), all),
    ensures
        all == limit,
        limit < u32::MAX ==> closed == all + 1,
        limit == u32::MAX ==> closed == all,
{
}

/// A series tells its rows as they are, how many they are, and when the first
/// and the last of them open.
pub proof fn series_tell_their_rows(interval: Interval, rows: Vec<StoredKline>, r: KlineSeries)
    requires
        call_ensures(kline_series, (&interval, rows), r),
    ensures
        r.data@ == rows@ && r.count == rows@.len(),
        r.interval@ == interval.name(),
        rows@.len() == 0 <==> r.start_time is None,
        rows@.len() == 0 <==> r.end_time is None,
        r.start_time matches Some(t) ==> t == rows@[0].candle.open_time,
        r.end_time matches Some(t) ==> t == rows@[rows@.len() - 1].candle.open_time,
{
}

/// The open candle of a series ends the answer of a query that it belongs to:
/// one that asks for open candles, for at least one row, and for a stretch of
/// time that the candle opens in. No row may be newer.
pub proof fn queries_end_with_the_open_candle(
    symbol: &str,
    interval: Interval,
    stored: Vec<StoredKline>,
    buffered: Vec<StoredKline>,
    candle: Candle,
    start: Option<i64>,
    end: Option<i64>,
    limit: u32,
    r: Vec<StoredKline>,
)
    requires
        limit > 0,
        start is None || start->0 <= candle.open_time,
        end is None || candle.open_time <= end->0,
        forall|i: int|
            0 <= i < stored@.len() ==> (#[trigger] stored@[i]).candle.open_time <= candle.open_time,
        forall|i: int|
            0 <= i < buffered@.len() ==> (#[trigger] buffered@[i]).candle.open_time
                <= candle.open_time,
        call_ensures(
            query_kline_rows,
            (symbol, interval, &stored, &buffered, Some(candle), start, end, limit, false),
            r,
        ),
    ensures
        r@.len() > 0,
        r@.last().candle == candle,
{
    let old_rows = kline_views(stored@);
    let new_rows = kline_views(buffered@);
    let base = choose|base: Seq<KlineView>| #[trigger]
        base_rows(interval, old_rows, new_rows, base) && kline_views(r@) == served(
            base,
            symbol@,
            interval,
            Some(candle),
            start,
            end,
            limit,
            false,
        );
    if base.len() > 0 {
        let last = base.last();
        assert(base.contains(base[base.len() - 1]));
        if held_in_memory(interval) {
            assert(old_rows[old_rows.len() - 1] == stored@[stored@.len() - 1]@);
        } else {
            let all = old_rows + new_rows;
            let i = choose|i: int| stands(all, i, last);
            if i < old_rows.len() {
                assert(all[i] == stored@[i]@);
            } else {
                assert(all[i] == buffered@[i - old_rows.len()]@);
            }
        }
        assert(last.candle.open_time <= candle.open_time);
    }
    open_candles_in_the_window_end_the_answer(base, symbol@, interval, candle, start, end, limit);
    let answer = kline_views(r@);
    assert(answer.len() == r@.len());
    assert(answer[answer.len() - 1] == r@[r@.len() - 1]@);
}

/// A query for closed candles answers with closed ones alone, and no query with
/// more rows than its limit or with a gap.
pub proof fn queries_answer_without_gaps(
    symbol: &str,
    interval: Interval,
    stored: Vec<StoredKline>,
    buffered: Vec<StoredKline>,
    latest: Option<Candle>,
    start: Option<i64>,
    end: Option<i64>,
    limit: u32,
    closed_only: bool,
    r: Vec<StoredKline>,
)
    requires
        call_ensures(
            query_kline_rows,
            (symbol, interval, &stored, &buffered, latest, start, end, limit, closed_only),
            r,
        ),
    ensures
        r@.len() <= limit,
        forall|i: int| 0 <= i < r@.len() && closed_only ==> (#[trigger] r@[i]).candle.is_closed,
        forall|i: int, j: int|
            0 <= i && j == i + 1 && j < r@.len() ==> (#[trigger] r@[j]).candle.open_time - (
            #[trigger] r@[i]).candle.open_time == interval.millis(),
{
    let base = choose|base: Seq<KlineView>| #[trigger]
        base_rows(interval, kline_views(stored@), kline_views(buffered@), base) && kline_views(r@)
            == served(base, symbol@, interval, latest, start, end, limit, closed_only);
    let answer = kline_views(r@);
    if closed_only {
        closed_answers_are_closed(base, symbol@, interval, latest, start, end, limit);
        assert forall|i: int| 0 <= i < r@.len() implies (#[trigger] r@[i]).candle.is_closed by {
            assert(answer[i] == r@[i]@);
            assert(answer.contains(answer[i]));
        }
    }
    assert forall|i: int, j: int| 0 <= i && j == i + 1 && j < r@.len() implies (
    #[trigger] r@[j]).candle.open_time - (#[trigger] r@[i]).candle.open_time
        == interval.millis() by {
        assert(answer[i] == r@[i]@ && answer[j] == r@[j]@);
    }
}

} // verus!
