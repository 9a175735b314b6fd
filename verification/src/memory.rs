//! What is held in memory: the open candles, the closed candles of intervals
//! below a minute, and the closed candles that wait to be written.

use crate::domain::candle::Candle;
use crate::series::{
    by_series, copy_rows, entry_at, has_time, in_time_order, keep_newest, newest, one_per_series,
    pick_window, put_row, series_of_entry, window, with_row, SeriesEntry, SeriesTable,
};
use crate::storage::sqlite::{candles_of, StoredKline};
use crate::text::{to_upper, uppercase};
use vstd::map::*;
use vstd::prelude::*;
use vstd::string::*;

verus! {

pub const DEFAULT_MEMORY_SERIES_LIMIT: usize = 5_000;

/// The series of a symbol, which counts in upper case, and an interval.
pub open spec fn series_key(symbol: Seq<char>, interval: Seq<char>) -> (Seq<char>, Seq<char>) {
    (uppercase(symbol), interval)
}

/// The rows of a series, none where the series is not there.
pub open spec fn rows_at(
    series: Map<(Seq<char>, Seq<char>), Seq<Candle>>,
    key: (Seq<char>, Seq<char>),
) -> Seq<Candle> {
    if series.contains_key(key) {
        series[key]
    } else {
        Seq::empty()
    }
}

/// The rows by series.
pub open spec fn rows_by_series(entries: Seq<SeriesEntry<Vec<Candle>>>) -> Map<
    (Seq<char>, Seq<char>),
    Seq<Candle>,
> {
    by_series(entries).map_values(|rows: Vec<Candle>| rows@)
}

/// The rows answer a query: the last `limit` in the window, named after the
/// series.
pub open spec fn answers(
    r: Seq<StoredKline>,
    rows: Seq<Candle>,
    symbol: Seq<char>,
    interval: Seq<char>,
    start: Option<i64>,
    end: Option<i64>,
    limit: u32,
) -> bool {
    &&& candles_of(r) == newest(window(rows, start, end), limit as int)
    &&& forall|i: int|
        0 <= i < r.len() ==> (#[trigger] r[i]).symbol@ == uppercase(symbol) && r[i].interval@
            == interval
}

fn answer(
    rows: &Vec<Candle>,
    symbol: &str,
    interval: &str,
    start: Option<i64>,
    end: Option<i64>,
    limit: u32,
) -> (r: Vec<StoredKline>)
    ensures
        answers(r@, rows@, symbol@, interval@, start, end, limit),
{
    let mut picked = pick_window(rows, start, end);
    keep_newest(&mut picked, limit as usize);
    let upper = to_upper(symbol);
    let mut out: Vec<StoredKline> = Vec::new();
    let mut i: usize = 0;
    while i < picked.len()
        invariant
            i <= picked@.len(),
            upper@ == uppercase(symbol@),
            out@.len() == i,
            forall|j: int| 0 <= j < i ==> (#[trigger] out@[j]).candle == picked@[j],
            forall|j: int|
                0 <= j < out@.len() ==> (#[trigger] out@[j]).symbol@ == uppercase(symbol@)
                    && out@[j].interval@ == interval@,
        decreases picked@.len() - i,
    {
        out.push(
            StoredKline {
                symbol: upper.clone(),
                interval: interval.to_owned(),
                candle: picked[i],
            },
        );
        i += 1;
    }
    assert(candles_of(out@) =~= picked@);
    out
}

/// The open candle of each series.
#[derive(Debug)]
pub struct LatestCache {
    table: SeriesTable<Candle>,
}

impl Default for LatestCache {
    fn default() -> (r: Self)
        ensures
            r.wf(),
            r@ == Map::<(Seq<char>, Seq<char>), Candle>::empty(),
    {
        LatestCache { table: SeriesTable::new() }
    }
}

impl LatestCache {
    pub closed spec fn wf(self) -> bool {
        self.table.wf()
    }

    pub closed spec fn view(self) -> Map<(Seq<char>, Seq<char>), Candle> {
        self.table@
    }

    pub fn upsert(&mut self, symbol: &str, interval: &str, candle: Candle)
        requires
            old(self).wf(),
        ensures
            final(self).wf(),
            final(self)@ == old(self)@.insert(series_key(symbol@, interval@), candle),
    {
        self.table.insert(to_upper(symbol), interval.to_owned(), candle);
    }

    pub fn remove(&mut self, symbol: &str, interval: &str)
        requires
            old(self).wf(),
        ensures
            final(self).wf(),
            final(self)@ == old(self)@.remove(series_key(symbol@, interval@)),
    {
        let upper = to_upper(symbol);
        let _ = self.table.remove(upper.as_str(), interval);
    }

    pub fn get(&self, symbol: &str, interval: &str) -> (r: Option<Candle>)
        requires
            self.wf(),
        ensures
            match r {
                Some(candle) => self@.contains_key(series_key(symbol@, interval@)) && candle
                    == self@[series_key(symbol@, interval@)],
                None => !self@.contains_key(series_key(symbol@, interval@)),
            },
    {
        let upper = to_upper(symbol);
        match self.table.get(upper.as_str(), interval) {
            Some(candle) => Some(*candle),
            None => None,
        }
    }
}

/// The latest closed candles of each series, at most `limit` of them.
#[derive(Debug)]
pub struct MemorySeriesStore {
    limit: usize,
    table: SeriesTable<Vec<Candle>>,
}

impl Default for MemorySeriesStore {
    fn default() -> (r: Self)
        ensures
            r.wf(),
            r.capacity() == DEFAULT_MEMORY_SERIES_LIMIT,
            r@ == Map::<(Seq<char>, Seq<char>), Seq<Candle>>::empty(),
    {
        MemorySeriesStore::new(DEFAULT_MEMORY_SERIES_LIMIT)
    }
}

impl MemorySeriesStore {
    pub closed spec fn capacity(self) -> usize {
        self.limit
    }

    pub closed spec fn view(self) -> Map<(Seq<char>, Seq<char>), Seq<Candle>> {
        rows_by_series(self.table.listing())
    }

    pub closed spec fn wf(self) -> bool {
        &&& self.table.wf()
        &&& forall|key: (Seq<char>, Seq<char>)|
            self@.contains_key(key) ==> in_time_order(#[trigger] self@[key]) && self@[key].len()
                <= self.limit
    }

    pub fn new(limit: usize) -> (r: Self)
        ensures
            r.wf(),
            r.capacity() == limit,
            r@ == Map::<(Seq<char>, Seq<char>), Seq<Candle>>::empty(),
    {
        let r = MemorySeriesStore { limit, table: SeriesTable::new() };
        assert(r@ =~= Map::<(Seq<char>, Seq<char>), Seq<Candle>>::empty());
        r
    }

    /// Adds a candle, marked closed, to a series.
    pub fn push_closed(&mut self, symbol: &str, interval: &str, candle: Candle)
        requires
            old(self).wf(),
        ensures
            final(self).wf(),
            final(self).capacity() == old(self).capacity(),
            final(self)@ == old(self)@.insert(
                series_key(symbol@, interval@),
                newest(
                    with_row(
                        rows_at(old(self)@, series_key(symbol@, interval@)),
                        candle.finalized(),
                    ),
                    old(self).capacity() as int,
                ),
            ),
    {
        let ghost key = series_key(symbol@, interval@);
        let ghost rows0 = rows_at(self@, key);
        let upper = to_upper(symbol);
        let mut rows = match self.table.remove(upper.as_str(), interval) {
            Some(rows) => rows,
            None => Vec::new(),
        };
        assert(rows@ =~= rows0);
        put_row(&mut rows, candle.finalize());
        let ghost all = rows@;
        keep_newest(&mut rows, self.limit);
        assert(in_time_order(rows@)) by {
            assert(forall|i: int|
                0 <= i < rows@.len() ==> #[trigger] rows@[i] == all[all.len() - rows@.len() + i]);
        }
        self.table.insert(upper, interval.to_owned(), rows);
        assert(self@ =~= old(self)@.insert(key, rows@));
    }

    pub fn query(
        &self,
        symbol: &str,
        interval: &str,
        start_time: Option<i64>,
        end_time: Option<i64>,
        limit: u32,
    ) -> (r: Vec<StoredKline>)
        requires
            self.wf(),
        ensures
            answers(
                r@,
                rows_at(self@, series_key(symbol@, interval@)),
                symbol@,
                interval@,
                start_time,
                end_time,
                limit,
            ),
    {
        let upper = to_upper(symbol);
        match self.table.get(upper.as_str(), interval) {
            Some(rows) => answer(rows, symbol, interval, start_time, end_time, limit),
            None => answer(&Vec::new(), symbol, interval, start_time, end_time, limit),
        }
    }
}

/// A store never holds more rows of a series than it may, keeps them in the
/// order of time, and the candle that was added last is there if any is.
pub proof fn memory_series_are_bounded(rows: Seq<Candle>, candle: Candle, limit: int)
    requires
        in_time_order(rows),
        limit >= 0,
    ensures
        in_time_order(newest(with_row(rows, candle), limit)),
        newest(with_row(rows, candle), limit).len() <= limit,
        limit > 0 && (forall|i: int|
            0 <= i < rows.len() ==> (#[trigger] rows[i]).open_time < candle.open_time)
            ==> newest(with_row(rows, candle), limit).last() == candle,
{
    crate::series::putting_a_row(rows, candle);
    let all = with_row(rows, candle);
    let kept = newest(all, limit);
    assert forall|i: int, j: int| 0 <= i < j < kept.len() implies (#[trigger] kept[i]).open_time < (
    #[trigger] kept[j]).open_time by {
        let d = all.len() - kept.len();
        assert(kept[i] == all[d + i]);
        assert(kept[j] == all[d + j]);
    }
    if forall|i: int| 0 <= i < rows.len() ==> (#[trigger] rows[i]).open_time < candle.open_time {
        crate::series::filter_is_prefix(
            rows,
            |row: Candle| row.open_time > candle.open_time,
            0,
        );
        assert(rows.take(0).len() == 0);
        assert(all.last() == candle);
    }
}

// ---------------------------------------------------------------------------
// The buffer of closed candles.
// ---------------------------------------------------------------------------

/// The closed candles that wait to be written.
#[derive(Debug)]
pub struct ClosedKlineBuffer {
    table: SeriesTable<Vec<Candle>>,
    rows: usize,
}

/// How many rows the entries have together.
pub open spec fn rows_in(entries: Seq<SeriesEntry<Vec<Candle>>>) -> int
    decreases entries.len(),
{
    if entries.len() == 0 {
        0
    } else {
        rows_in(entries.drop_last()) + entries.last().value@.len()
    }
}

proof fn rows_in_push(entries: Seq<SeriesEntry<Vec<Candle>>>, entry: SeriesEntry<Vec<Candle>>)
    ensures
        rows_in(entries.push(entry)) == rows_in(entries) + entry.value@.len(),
{
    assert(entries.push(entry).drop_last() =~= entries);
}

proof fn rows_in_remove(entries: Seq<SeriesEntry<Vec<Candle>>>, i: int)
    requires
        0 <= i < entries.len(),
    ensures
        rows_in(entries.remove(i)) == rows_in(entries) - entries[i].value@.len(),
        rows_in(entries.remove(i)) >= 0,
    decreases entries.len(),
{
    let shorter = entries.drop_last();
    rows_in_counts(entries.remove(i));
    if i == entries.len() - 1 {
        assert(entries.remove(i) =~= shorter);
    } else {
        rows_in_remove(shorter, i);
        assert(entries.remove(i).drop_last() =~= shorter.remove(i));
    }
}

proof fn rows_in_counts(entries: Seq<SeriesEntry<Vec<Candle>>>)
    ensures
        rows_in(entries) >= 0,
    decreases entries.len(),
{
    if entries.len() > 0 {
        rows_in_counts(entries.drop_last());
    }
}

impl Default for ClosedKlineBuffer {
    fn default() -> (r: Self)
        ensures
            r.wf(),
            r.total() == 0,
            r@ == Map::<(Seq<char>, Seq<char>), Seq<Candle>>::empty(),
    {
        let r = ClosedKlineBuffer { table: SeriesTable::new(), rows: 0 };
        assert(r@ =~= Map::<(Seq<char>, Seq<char>), Seq<Candle>>::empty());
        r
    }
}

/// The rows that are not among those that are gone.
pub open spec fn remaining(rows: Seq<Candle>, gone: Seq<Candle>) -> Seq<Candle> {
    rows.filter(|row: Candle| !gone.contains(row))
}

/// What is left of the series when the written rows are taken out. A series
/// without rows goes.
pub open spec fn without_flushed(
    series: Map<(Seq<char>, Seq<char>), Seq<Candle>>,
    flushed: Seq<SeriesEntry<Vec<Candle>>>,
) -> Map<(Seq<char>, Seq<char>), Seq<Candle>>
    decreases flushed.len(),
{
    if flushed.len() == 0 {
        series
    } else {
        let before = without_flushed(series, flushed.drop_last());
        let group = flushed.last();
        let left = remaining(rows_at(before, group.key()), group.value@);
        if left.len() == 0 {
            before.remove(group.key())
        } else {
            before.insert(group.key(), left)
        }
    }
}

fn has_row(rows: &Vec<Candle>, row: Candle) -> (r: bool)
    ensures
        r == rows@.contains(row),
{
    let mut i: usize = 0;
    while i < rows.len()
        invariant
            i <= rows@.len(),
            forall|j: int| 0 <= j < i ==> rows@[j] != row,
        decreases rows@.len() - i,
    {
        if rows[i] == row {
            return true;
        }
        i += 1;
    }
    false
}

fn take_remaining(rows: &Vec<Candle>, gone: &Vec<Candle>) -> (r: Vec<Candle>)
    ensures
        r@ == remaining(rows@, gone@),
        r@.len() <= rows@.len(),
        in_time_order(rows@) ==> in_time_order(r@),
{
    let ghost keep = |row: Candle| !gone@.contains(row);
    let mut out: Vec<Candle> = Vec::new();
    let mut i: usize = 0;
    assert(rows@.take(0).filter(keep) =~= Seq::<Candle>::empty()) by {
        reveal(Seq::filter);
    }
    while i < rows.len()
        invariant
            i <= rows@.len(),
            keep == (|row: Candle| !gone@.contains(row)),
            out@ == rows@.take(i as int).filter(keep),
            out@.len() <= i,
            in_time_order(rows@) ==> in_time_order(out@),
            in_time_order(rows@) ==> forall|j: int, k: int|
                0 <= j < out@.len() && i <= k < rows@.len() ==> (#[trigger] out@[j]).open_time < (
                #[trigger] rows@[k]).open_time,
        decreases rows@.len() - i,
    {
        assert(rows@.take(i + 1).drop_last() =~= rows@.take(i as int));
        proof {
            reveal(Seq::filter);
        }
        if !has_row(gone, rows[i]) {
            out.push(rows[i]);
        }
        i += 1;
    }
    assert(rows@.take(rows@.len() as int) =~= rows@);
    out
}

impl ClosedKlineBuffer {
    pub closed spec fn view(self) -> Map<(Seq<char>, Seq<char>), Seq<Candle>> {
        rows_by_series(self.table.listing())
    }

    /// How many rows wait.
    pub closed spec fn total(self) -> int {
        rows_in(self.table.listing())
    }

    pub closed spec fn wf(self) -> bool {
        &&& self.table.wf()
        &&& self.rows == rows_in(self.table.listing())
        &&& forall|key: (Seq<char>, Seq<char>)|
            self@.contains_key(key) ==> in_time_order(#[trigger] self@[key])
    }

    pub fn len(&self) -> (r: usize)
        requires
            self.wf(),
        ensures
            r == self.total(),
    {
        self.rows
    }

    /// Takes the rows of a series out.
    fn take_series(&mut self, symbol: &str, interval: &str) -> (r: Vec<Candle>)
        requires
            old(self).wf(),
        ensures
            final(self).wf(),
            r@ == rows_at(old(self)@, (symbol@, interval@)),
            in_time_order(r@),
            final(self)@ == old(self)@.remove((symbol@, interval@)),
            final(self).total() == old(self).total() - r@.len(),
            !final(self).table@.contains_key((symbol@, interval@)),
    {
        let ghost listing0 = self.table.listing();
        let ghost key = (symbol@, interval@);
        match self.table.remove(symbol, interval) {
            Some(rows) => {
                proof {
                    let i = choose|i: int| #[trigger]
                        entry_at(listing0, key, i) && rows == listing0[i].value
                            && self.table.listing() == listing0.remove(i);
                    rows_in_remove(listing0, i);
                }
                self.rows = self.rows - rows.len();
                assert(self@ =~= old(self)@.remove(key));
                proof {
                    assert(old(self)@.contains_key(key));
                    assert(old(self)@[key] == rows@);
                    assert(in_time_order(old(self)@[key]));
                }
                rows
            },
            None => {
                let rows: Vec<Candle> = Vec::new();
                assert(rows@ =~= rows_at(old(self)@, key));
                assert(self@ =~= old(self)@.remove(key));
                rows
            },
        }
    }

    /// Puts the rows of a series that is not there.
    fn put_series(&mut self, symbol: String, interval: String, rows: Vec<Candle>)
        requires
            old(self).wf(),
            in_time_order(rows@),
            !old(self).table@.contains_key((symbol@, interval@)),
            old(self).total() + rows@.len() <= usize::MAX,
        ensures
            final(self).wf(),
            final(self)@ == old(self)@.insert((symbol@, interval@), rows@),
            final(self).total() == old(self).total() + rows@.len(),
    {
        let ghost key = (symbol@, interval@);
        let ghost listing0 = self.table.listing();
        let ghost entry = SeriesEntry { symbol, interval, value: rows };
        proof {
            rows_in_push(listing0, entry);
        }
        self.rows = self.rows + rows.len();
        self.table.insert(symbol, interval, rows);
        assert(self@ =~= old(self)@.insert(key, rows@));
    }

    /// Adds a candle to a series, instead of the one that opens at the same
    /// time, and tells how many rows wait.
    pub fn upsert(&mut self, symbol: &str, interval: &str, candle: Candle) -> (r: usize)
        requires
            old(self).wf(),
            old(self).total() < usize::MAX,
        ensures
            final(self).wf(),
            final(self)@ == old(self)@.insert(
                series_key(symbol@, interval@),
                with_row(rows_at(old(self)@, series_key(symbol@, interval@)), candle),
            ),
            r == final(self).total(),
            final(self).total() == old(self).total() + if has_time(
                rows_at(old(self)@, series_key(symbol@, interval@)),
                candle.open_time,
            ) {
                0int
            } else {
                1
            },
    {
        let upper = to_upper(symbol);
        let ghost key = series_key(symbol@, interval@);
        let mut rows = self.take_series(upper.as_str(), interval);
        put_row(&mut rows, candle);
        self.put_series(upper, interval.to_owned(), rows);
        assert(self@ =~= old(self)@.insert(key, rows@));
        self.rows
    }

    pub fn query(
        &self,
        symbol: &str,
        interval: &str,
        start_time: Option<i64>,
        end_time: Option<i64>,
        limit: u32,
    ) -> (r: Vec<StoredKline>)
        requires
            self.wf(),
        ensures
            answers(
                r@,
                rows_at(self@, series_key(symbol@, interval@)),
                symbol@,
                interval@,
                start_time,
                end_time,
                limit,
            ),
    {
        let upper = to_upper(symbol);
        match self.table.get(upper.as_str(), interval) {
            Some(rows) => answer(rows, symbol, interval, start_time, end_time, limit),
            None => answer(&Vec::new(), symbol, interval, start_time, end_time, limit),
        }
    }

    /// A copy of all that waits, by series.
    pub fn snapshot_grouped(&self) -> (r: Vec<SeriesEntry<Vec<Candle>>>)
        requires
            self.wf(),
        ensures
            one_per_series(r@),
            rows_by_series(r@) == self@,
            rows_in(r@) == self.total(),
    {
        let ghost listing = self.table.listing();
        let mut out: Vec<SeriesEntry<Vec<Candle>>> = Vec::new();
        let mut i: usize = 0;
        while i < self.table.len()
            invariant
                i <= listing.len(),
                listing == self.table.listing(),
                out@.len() == i,
                forall|j: int|
                    0 <= j < i ==> (#[trigger] out@[j]).key() == listing[j].key()
                        && out@[j].value@ == listing[j].value@,
                rows_in(out@) == rows_in(listing.take(i as int)),
            decreases listing.len() - i,
        {
            let entry = self.table.entry(i);
            let copy = SeriesEntry {
                symbol: entry.symbol.clone(),
                interval: entry.interval.clone(),
                value: copy_rows(&entry.value),
            };
            proof {
                rows_in_push(out@, copy);
                rows_in_push(listing.take(i as int), listing[i as int]);
                assert(listing.take(i + 1) =~= listing.take(i as int).push(listing[i as int]));
            }
            out.push(copy);
            i += 1;
        }
        proof {
            assert(listing.take(i as int) =~= listing);
            assert forall|a: int, b: int| 0 <= a < b < out@.len() implies (#[trigger] out@[a]).key()
                != (#[trigger] out@[b]).key() by {
                assert(listing[a].key() != listing[b].key());
            }
            same_rows(out@, listing);
        }
        out
    }

    /// Takes all that waits out, by series.
    pub fn drain_grouped(&mut self) -> (r: Vec<SeriesEntry<Vec<Candle>>>)
        requires
            old(self).wf(),
        ensures
            final(self).wf(),
            final(self).total() == 0,
            final(self)@ == Map::<(Seq<char>, Seq<char>), Seq<Candle>>::empty(),
            one_per_series(r@),
            rows_by_series(r@) == old(self)@,
            rows_in(r@) == old(self).total(),
    {
        self.rows = 0;
        let entries = self.table.drain();
        assert(self@ =~= Map::<(Seq<char>, Seq<char>), Seq<Candle>>::empty());
        entries
    }

    /// Takes the rows out that were written. A row that changed since stays.
    pub fn remove_flushed(&mut self, flushed: &Vec<SeriesEntry<Vec<Candle>>>)
        requires
            old(self).wf(),
        ensures
            final(self).wf(),
            final(self)@ == without_flushed(old(self)@, flushed@),
            final(self).total() <= old(self).total(),
    {
        let mut i: usize = 0;
        assert(flushed@.take(0).len() == 0);
        while i < flushed.len()
            invariant
                i <= flushed@.len(),
                self.wf(),
                self@ == without_flushed(old(self)@, flushed@.take(i as int)),
                self.total() <= old(self).total(),
            decreases flushed@.len() - i,
        {
            let group = &flushed[i];
            let ghost before = self@;
            let ghost total0 = self.total();
            assert(flushed@.take(i + 1).drop_last() =~= flushed@.take(i as int));
            let rows = self.take_series(group.symbol.as_str(), group.interval.as_str());
            let left = take_remaining(&rows, &group.value);
            if left.len() > 0 {
                assert(self.rows == self.total());
                assert(total0 <= usize::MAX);
                self.put_series(group.symbol.clone(), group.interval.clone(), left);
                assert(self@ =~= before.insert(group.key(), left@));
            } else {
                assert(self@ =~= before.remove(group.key()));
            }
            i += 1;
        }
        assert(flushed@.take(i as int) =~= flushed@);
    }
}

/// Entries of the same series with the same rows are the same by series.
proof fn same_rows(a: Seq<SeriesEntry<Vec<Candle>>>, b: Seq<SeriesEntry<Vec<Candle>>>)
    requires
        one_per_series(a),
        one_per_series(b),
        a.len() == b.len(),
        forall|i: int|
            0 <= i < a.len() ==> (#[trigger] a[i]).key() == b[i].key() && a[i].value@
                == b[i].value@,
    ensures
        rows_by_series(a) == rows_by_series(b),
{
    assert_maps_equal!(rows_by_series(a), rows_by_series(b), key => {
        if by_series(a).contains_key(key) {
            let i = choose|i: int| #[trigger] entry_at(a, key, i);
            assert(entry_at(a, key, i));
            assert(entry_at(b, key, i));
            series_of_entry(a, i);
            series_of_entry(b, i);
        }
        if by_series(b).contains_key(key) {
            let i = choose|i: int| #[trigger] entry_at(b, key, i);
            assert(entry_at(b, key, i));
            assert(a[i].key() == b[i].key());
            assert(entry_at(a, key, i));
        }
    });
}

/// After a write exactly the rows that were not written are left, whatever
/// was added or changed since the copy was taken.
pub proof fn a_flush_keeps_what_was_not_written(
    series: Map<(Seq<char>, Seq<char>), Seq<Candle>>,
    flushed: Seq<SeriesEntry<Vec<Candle>>>,
    key: (Seq<char>, Seq<char>),
    row: Candle,
)
    requires
        one_per_series(flushed),
    ensures
        rows_at(without_flushed(series, flushed), key).contains(row) <==> rows_at(
            series,
            key,
        ).contains(row) && !rows_at(rows_by_series(flushed), key).contains(row),
    decreases flushed.len(),
{
    if flushed.len() == 0 {
        assert(!rows_at(rows_by_series(flushed), key).contains(row));
    } else {
        let n = flushed.len() - 1;
        let shorter = flushed.drop_last();
        assert forall|i: int, j: int| 0 <= i < j < shorter.len() implies (#[trigger] shorter[i]).key()
            != (#[trigger] shorter[j]).key() by {
            assert(flushed[i].key() != flushed[j].key());
        }
        a_flush_keeps_what_was_not_written(series, shorter, key, row);
        let before = without_flushed(series, shorter);
        let group = flushed.last();
        series_of_entry(flushed, n);
        if key == group.key() {
            let rows = rows_at(before, key);
            crate::series::filter_keeps(rows, |r: Candle| !group.value@.contains(r));
            let left = remaining(rows, group.value@);
            assert(left.contains(row) <==> rows.contains(row) && !group.value@.contains(row));
            assert(!by_series(shorter).contains_key(key)) by {
                if by_series(shorter).contains_key(key) {
                    let i = choose|i: int| #[trigger] entry_at(shorter, key, i);
                    assert(entry_at(shorter, key, i));
                    assert(flushed[i].key() != flushed[n].key());
                }
            }
            assert(!rows_at(rows_by_series(shorter), key).contains(row));
            if left.len() == 0 {
                assert(!left.contains(row));
            }
            assert(rows_at(rows_by_series(flushed), key) == group.value@);
        } else {
            assert(rows_at(rows_by_series(flushed), key) == rows_at(
                rows_by_series(shorter),
                key,
            )) by {
                if by_series(flushed).contains_key(key) {
                    let i = choose|i: int| #[trigger] entry_at(flushed, key, i);
                    assert(entry_at(flushed, key, i));
                    assert(i < n);
                    assert(shorter[i] == flushed[i]);
                    series_of_entry(flushed, i);
                    series_of_entry(shorter, i);
                }
                if by_series(shorter).contains_key(key) {
                    let i = choose|i: int| #[trigger] entry_at(shorter, key, i);
                    assert(entry_at(shorter, key, i));
                    assert(entry_at(flushed, key, i));
                }
            }
            assert(rows_at(without_flushed(series, flushed), key) == rows_at(before, key));
        }
    }
}

/// Two names mean one series exactly if the symbols are one but for case and
/// the intervals are one.
pub proof fn series_are_told_apart(
    symbol: Seq<char>,
    interval: Seq<char>,
    other_symbol: Seq<char>,
    other_interval: Seq<char>,
)
    ensures
        series_key(symbol, interval) == series_key(other_symbol, other_interval) <==> uppercase(
            symbol,
        ) == uppercase(other_symbol) && interval == other_interval,
{
}

/// A query answers with rows of the series that open in the window, in the
/// order of time and no more than the limit. A row in the window that is left
/// out is older than all that are told, and is left out for the limit alone.
pub proof fn queries_tell_the_newest_in_the_window(
    r: Seq<StoredKline>,
    rows: Seq<Candle>,
    symbol: Seq<char>,
    interval: Seq<char>,
    start: Option<i64>,
    end: Option<i64>,
    limit: u32,
    row: Candle,
)
    requires
        in_time_order(rows),
        answers(r, rows, symbol, interval, start, end, limit),
    ensures
        r.len() <= limit,
        forall|i: int, j: int|
            0 <= i < j < r.len() ==> (#[trigger] r[i]).candle.open_time < (
            #[trigger] r[j]).candle.open_time,
        forall|i: int|
            #![trigger r[i]]
            0 <= i < r.len() ==> {
                &&& rows.contains(r[i].candle)
                &&& start is None || start->0 <= r[i].candle.open_time
                &&& end is None || r[i].candle.open_time <= end->0
                &&& r[i].symbol@ == uppercase(symbol) && r[i].interval@ == interval
            },
        rows.contains(row) && (start is None || start->0 <= row.open_time) && (end is None
            || row.open_time <= end->0) ==> {
            ||| exists|i: int| 0 <= i < r.len() && (#[trigger] r[i]).candle == row
            ||| r.len() == limit && forall|i: int|
                0 <= i < r.len() ==> row.open_time < (#[trigger] r[i]).candle.open_time
        },
{
    let keep = |candle: Candle| crate::series::in_window(candle, start, end);
    let all = window(rows, start, end);
    crate::series::filter_keeps(rows, keep);
    window_stays_in_order(rows, start, end);
    let told = candles_of(r);
    assert forall|i: int| 0 <= i < r.len() implies #[trigger] told[i] == r[i].candle by {}
    let skipped = all.len() - told.len();
    assert forall|i: int| 0 <= i < told.len() implies #[trigger] told[i] == all[skipped + i] by {}
    assert forall|i: int, j: int| 0 <= i < j < r.len() implies (#[trigger] r[i]).candle.open_time < (
    #[trigger] r[j]).candle.open_time by {
        assert(told[i] == all[skipped + i] && told[j] == all[skipped + j]);
    }
    assert forall|i: int| #![trigger r[i]] 0 <= i < r.len() implies {
        &&& rows.contains(r[i].candle)
        &&& start is None || start->0 <= r[i].candle.open_time
        &&& end is None || r[i].candle.open_time <= end->0
    } by {
        assert(told[i] == all[skipped + i]);
        assert(all.contains(all[skipped + i]));
    }
    if rows.contains(row) && (start is None || start->0 <= row.open_time) && (end is None
        || row.open_time <= end->0) {
        assert(all.contains(row));
        let k = choose|k: int| 0 <= k < all.len() && all[k] == row;
        if k >= skipped {
            assert(told[k - skipped] == all[k]);
            assert(r[k - skipped].candle == row);
        } else {
            assert(r.len() == limit);
            assert forall|i: int| 0 <= i < r.len() implies row.open_time < (
            #[trigger] r[i]).candle.open_time by {
                assert(told[i] == all[skipped + i]);
                assert(all[k].open_time < all[skipped + i].open_time);
            }
        }
    }
}

proof fn window_stays_in_order(rows: Seq<Candle>, start: Option<i64>, end: Option<i64>)
    requires
        in_time_order(rows),
    ensures
        in_time_order(window(rows, start, end)),
    decreases rows.len(),
{
    reveal(Seq::filter);
    if rows.len() > 0 {
        let fewer = rows.drop_last();
        assert(in_time_order(fewer)) by {
            assert forall|i: int, j: int| 0 <= i < j < fewer.len() implies (
            #[trigger] fewer[i]).open_time < (#[trigger] fewer[j]).open_time by {
                assert(fewer[i] == rows[i] && fewer[j] == rows[j]);
            }
        }
        window_stays_in_order(fewer, start, end);
        let keep = |candle: Candle| crate::series::in_window(candle, start, end);
        crate::series::filter_keeps(fewer, keep);
        let kept = window(fewer, start, end);
        let all = window(rows, start, end);
        assert forall|i: int, j: int| 0 <= i < j < all.len() implies (
        #[trigger] all[i]).open_time < (#[trigger] all[j]).open_time by {
            if j < kept.len() {
                assert(all[i] == kept[i] && all[j] == kept[j]);
            } else {
                assert(all[i] == kept[i]);
                assert(kept.contains(kept[i]));
                let k = choose|k: int| 0 <= k < fewer.len() && fewer[k] == kept[i];
                assert(rows[k] == kept[i]);
                assert(all[j] == rows[rows.len() - 1]);
            }
        }
    }
}

proof fn all_rows_are_told(
    r: Seq<StoredKline>,
    rows: Seq<Candle>,
    symbol: Seq<char>,
    interval: Seq<char>,
    limit: u32,
)
    requires
        rows.len() <= limit,
        answers(r, rows, symbol, interval, None, None, limit),
    ensures
        candles_of(r) == rows,
{
    let keep = |row: Candle| crate::series::in_window(row, None, None);
    crate::series::filter_is_prefix(rows, keep, rows.len() as int);
    assert(rows.take(rows.len() as int) =~= rows);
}

proof fn told_row(r: Seq<StoredKline>, row: Candle)
    requires
        candles_of(r).contains(row),
    ensures
        exists|i: int| 0 <= i < r.len() && (#[trigger] r[i]).candle == row,
{
    let i = choose|i: int| 0 <= i < candles_of(r).len() && candles_of(r)[i] == row;
    assert(r[i].candle == row);
}

/// What was written to a series is what a query reads back: the row under its
/// time, in place of an older one of that time. Every other row is still there.
pub proof fn written_rows_are_read_back(
    rows: Seq<Candle>,
    candle: Candle,
    r: Seq<StoredKline>,
    symbol: Seq<char>,
    interval: Seq<char>,
    limit: u32,
    other: Candle,
)
    requires
        in_time_order(rows),
        rows.len() < limit,
        answers(r, with_row(rows, candle), symbol, interval, None, None, limit),
    ensures
        exists|i: int| 0 <= i < r.len() && (#[trigger] r[i]).candle == candle,
        rows.contains(other) && other.open_time != candle.open_time ==> exists|i: int|
            0 <= i < r.len() && (#[trigger] r[i]).candle == other,
        forall|i: int|
            0 <= i < r.len() ==> (#[trigger] r[i]).candle == candle || (rows.contains(r[i].candle)
                && r[i].candle.open_time != candle.open_time),
{
    let all = with_row(rows, candle);
    crate::series::putting_a_row(rows, candle);
    rows_grow_by_one(rows, candle);
    all_rows_are_told(r, all, symbol, interval, limit);
    assert(all.contains(candle));
    told_row(r, candle);
    if rows.contains(other) && other.open_time != candle.open_time {
        assert(all.contains(other));
        told_row(r, other);
    }
    assert forall|i: int| 0 <= i < r.len() implies (#[trigger] r[i]).candle == candle || (
    rows.contains(r[i].candle) && r[i].candle.open_time != candle.open_time) by {
        assert(candles_of(r)[i] == r[i].candle);
        assert(all.contains(all[i]));
    }
}

proof fn rows_grow_by_one(rows: Seq<Candle>, candle: Candle)
    ensures
        with_row(rows, candle).len() <= rows.len() + 1,
{
    parts_are_fewer(rows, candle.open_time);
}

proof fn parts_are_fewer(rows: Seq<Candle>, t: i64)
    ensures
        crate::series::before(rows, t).len() + crate::series::after(rows, t).len() <= rows.len(),
    decreases rows.len(),
{
    reveal(Seq::filter);
    if rows.len() > 0 {
        parts_are_fewer(rows.drop_last(), t);
    }
}

} // verus!
