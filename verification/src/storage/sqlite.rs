//! Stored candles.

use crate::domain::candle::Candle;
use crate::domain::number::Double;
use vstd::prelude::*;
use vstd::string::*;

verus! {

pub const DEFAULT_RETENTION_BARS: u32 = 5_000;

/// A candle with the series that it belongs to.
#[derive(Debug, PartialEq, Eq)]
pub struct StoredKline {
    pub symbol: String,
    pub interval: String,
    pub candle: Candle,
}

impl Clone for StoredKline {
    fn clone(&self) -> (r: Self)
        ensures
            r == *self,
    {
        StoredKline {
            symbol: self.symbol.clone(),
            interval: self.interval.clone(),
            candle: self.candle,
        }
    }
}

/// A stored row as a value.
pub struct KlineView {
    pub symbol: Seq<char>,
    pub interval: Seq<char>,
    pub candle: Candle,
}

impl StoredKline {
    pub open spec fn view(self) -> KlineView {
        KlineView { symbol: self.symbol@, interval: self.interval@, candle: self.candle }
    }
}

pub open spec fn kline_views(rows: Seq<StoredKline>) -> Seq<KlineView> {
    rows.map_values(|row: StoredKline| row@)
}

/// The candles of stored rows.
pub open spec fn candles_of(rows: Seq<StoredKline>) -> Seq<Candle> {
    rows.map_values(|row: StoredKline| row.candle)
}

/// The opening times of stored rows.
pub open spec fn open_times_of(rows: Seq<StoredKline>) -> Seq<i64> {
    rows.map_values(|row: StoredKline| row.candle.open_time)
}

pub(crate) fn open_times(rows: &Vec<StoredKline>) -> (r: Vec<i64>)
    ensures
        r@ == open_times_of(rows@),
{
    let mut times: Vec<i64> = Vec::new();
    let mut i: usize = 0;
    while i < rows.len()
        invariant
            i <= rows@.len(),
            times@ == open_times_of(rows@.take(i as int)),
        decreases rows@.len() - i,
    {
        times.push(rows[i].candle.open_time);
        i += 1;
        assert(times@ =~= open_times_of(rows@.take(i as int)));
    }
    assert(rows@.take(rows@.len() as int) =~= rows@);
    times
}

/// A price alert.
#[derive(Debug, PartialEq, Eq)]
pub struct Alert {
    pub id: i64,
    pub symbol: String,
    pub interval: String,
    pub price: Double,
    pub direction: String,
    pub status: String,
    pub expires_at: Option<i64>,
    pub webhook_url: String,
    pub message_template: String,
    pub created_at: i64,
    pub updated_at: i64,
    pub triggered_at: Option<i64>,
    pub delivery_status: Option<String>,
    pub delivery_error: Option<String>,
}

/// Whether a stored candle counts as closed: it was stored so and its time
/// has passed.
pub fn closed_by_now(stored_flag: i64, close_time: i64, now_ms: i64) -> (r: bool)
    ensures
        r == (stored_flag != 0 && close_time < now_ms),
{
    stored_flag != 0 && close_time < now_ms
}

/// Whether old rows are pruned at all.
pub fn prunes(retention_bars: u32) -> (r: bool)
    ensures
        r == (retention_bars != 0),
{
    retention_bars != 0
}

/// The columns of a candle.
pub open spec fn kline_columns() -> Seq<char> {
    "symbol, interval, open_time, close_time, open, high, low, close, volume, quote_volume, trade_count, is_closed"@
}

/// The query for a series. With a start it takes the first rows from there;
/// without one it takes the last rows and turns them round.
pub open spec fn kline_query(has_start: bool, has_end: bool) -> Seq<char> {
    let upper = if has_end {
        " AND open_time <= ?"@
    } else {
        ""@
    };
    if has_start {
        "SELECT "@ + kline_columns() + " FROM klines WHERE symbol = ? AND interval = ?"@
            + " AND open_time >= ?"@ + upper + " ORDER BY open_time ASC LIMIT ?"@
    } else {
        "SELECT "@ + kline_columns() + " FROM (SELECT "@ + kline_columns()
            + " FROM klines WHERE symbol = ? AND interval = ?"@ + upper
            + " ORDER BY open_time DESC LIMIT ?) ORDER BY open_time ASC"@
    }
}

pub fn kline_query_sql(has_start: bool, has_end: bool) -> (r: String)
    ensures
        r@ == kline_query(has_start, has_end),
{
    let columns =
        "symbol, interval, open_time, close_time, open, high, low, close, volume, quote_volume, trade_count, is_closed";
    let upper = if has_end {
        " AND open_time <= ?"
    } else {
        ""
    };
    if has_start {
        "SELECT ".to_owned().concat(columns).concat(
            " FROM klines WHERE symbol = ? AND interval = ?",
        ).concat(" AND open_time >= ?").concat(upper).concat(" ORDER BY open_time ASC LIMIT ?")
    } else {
        "SELECT ".to_owned().concat(columns).concat(" FROM (SELECT ").concat(columns).concat(
            " FROM klines WHERE symbol = ? AND interval = ?",
        ).concat(upper).concat(" ORDER BY open_time DESC LIMIT ?) ORDER BY open_time ASC")
    }
}

/// An upper bound adds one condition to a query and changes nothing else.
pub proof fn an_upper_bound_adds_one_condition(has_start: bool)
    ensures
        exists|first: Seq<char>, rest: Seq<char>|
            kline_query(has_start, false) == #[trigger] (first + rest) && kline_query(
                has_start,
                true,
            ) == first + " AND open_time <= ?"@ + rest,
{
    reveal_strlit("");
    let (first, rest) = if has_start {
        (
            "SELECT "@ + kline_columns() + " FROM klines WHERE symbol = ? AND interval = ?"@
                + " AND open_time >= ?"@,
            " ORDER BY open_time ASC LIMIT ?"@,
        )
    } else {
        (
            "SELECT "@ + kline_columns() + " FROM (SELECT "@ + kline_columns()
                + " FROM klines WHERE symbol = ? AND interval = ?"@,
            " ORDER BY open_time DESC LIMIT ?) ORDER BY open_time ASC"@,
        )
    };
    assert(first + ""@ =~= first);
    assert(kline_query(has_start, false) == first + rest);
}

/// A stored candle counts as closed exactly if it is marked so and its time is
/// over: the mark alone, or the time alone, is not enough.
pub proof fn closed_rows_are_marked_and_over(flag: i64, close_time: i64, now_ms: i64, r: bool)
    requires
        call_ensures(closed_by_now, (flag, close_time, now_ms), r),
    ensures
        flag == 0 ==> !r,
        close_time >= now_ms ==> !r,
        flag != 0 && close_time < now_ms ==> r,
{
}

} // verus!
