//! Series of candles: rows in the order of time, and tables of series by
//! symbol and interval.

use crate::domain::candle::Candle;
use crate::text::same_text;
use vstd::map::*;
use vstd::prelude::*;
use vstd::string::*;

verus! {

// ---------------------------------------------------------------------------
// Rows.
// ---------------------------------------------------------------------------

/// Each row opens before all later ones.
pub open spec fn in_time_order(rows: Seq<Candle>) -> bool {
    forall|i: int, j: int|
        0 <= i < j < rows.len() ==> (#[trigger] rows[i]).open_time < (#[trigger] rows[j]).open_time
}

/// The rows that open before `t`.
pub open spec fn before(rows: Seq<Candle>, t: i64) -> Seq<Candle> {
    rows.filter(|row: Candle| row.open_time < t)
}

/// The rows that open after `t`.
pub open spec fn after(rows: Seq<Candle>, t: i64) -> Seq<Candle> {
    rows.filter(|row: Candle| row.open_time > t)
}

/// The rows with `candle` at its place, instead of the one that opens at the
/// same time if there is one.
pub open spec fn with_row(rows: Seq<Candle>, candle: Candle) -> Seq<Candle> {
    before(rows, candle.open_time).push(candle) + after(rows, candle.open_time)
}

/// The last `limit` rows.
pub open spec fn newest<T>(rows: Seq<T>, limit: int) -> Seq<T> {
    if rows.len() > limit {
        rows.skip(rows.len() - limit)
    } else {
        rows
    }
}

/// The row opens neither before `start` nor after `end`, as far as given.
pub open spec fn in_window(row: Candle, start: Option<i64>, end: Option<i64>) -> bool {
    &&& start matches Some(first) ==> row.open_time >= first
    &&& end matches Some(last) ==> row.open_time <= last
}

/// The rows in the window.
pub open spec fn window(rows: Seq<Candle>, start: Option<i64>, end: Option<i64>) -> Seq<Candle> {
    rows.filter(|row: Candle| in_window(row, start, end))
}

/// Keeping what stands in a prefix.
pub proof fn filter_is_prefix<T>(s: Seq<T>, keep: spec_fn(T) -> bool, n: int)
    requires
        0 <= n <= s.len(),
        forall|i: int| 0 <= i < n ==> keep(#[trigger] s[i]),
        forall|i: int| n <= i < s.len() ==> !keep(#[trigger] s[i]),
    ensures
        s.filter(keep) == s.take(n),
    decreases s.len(),
{
    reveal(Seq::filter);
    if s.len() > 0 {
        let shorter = s.drop_last();
        if n == s.len() {
            filter_is_prefix(shorter, keep, n - 1);
            assert(shorter.take(n - 1).push(s.last()) =~= s.take(n));
        } else {
            filter_is_prefix(shorter, keep, n);
            assert(shorter.take(n) =~= s.take(n));
        }
    } else {
        assert(s.take(n) =~= s);
    }
}

/// Keeping what stands in a suffix.
pub proof fn filter_is_suffix<T>(s: Seq<T>, keep: spec_fn(T) -> bool, n: int)
    requires
        0 <= n <= s.len(),
        forall|i: int| 0 <= i < n ==> !keep(#[trigger] s[i]),
        forall|i: int| n <= i < s.len() ==> keep(#[trigger] s[i]),
    ensures
        s.filter(keep) == s.skip(n),
    decreases s.len(),
{
    reveal(Seq::filter);
    if s.len() > 0 {
        let shorter = s.drop_last();
        if n == s.len() {
            filter_is_suffix(shorter, keep, n - 1);
            assert(shorter.skip(n - 1) =~= s.skip(n));
        } else {
            filter_is_suffix(shorter, keep, n);
            assert(shorter.skip(n).push(s.last()) =~= s.skip(n));
        }
    } else {
        assert(s.skip(n) =~= s);
    }
}

/// A filtered sequence has exactly the items that are kept.
pub proof fn filter_keeps<T>(s: Seq<T>, keep: spec_fn(T) -> bool)
    ensures
        forall|x: T| #[trigger] s.filter(keep).contains(x) <==> s.contains(x) && keep(x),
    decreases s.len(),
{
    reveal(Seq::filter);
    if s.len() > 0 {
        let shorter = s.drop_last();
        filter_keeps(shorter, keep);
        assert forall|x: T| #[trigger] s.filter(keep).contains(x) <==> s.contains(x) && keep(
            x,
        ) by {
            if s.filter(keep).contains(x) {
                let k = choose|k: int|
                    0 <= k < s.filter(keep).len() && s.filter(keep)[k] == x;
                if k < shorter.filter(keep).len() {
                    assert(shorter.filter(keep)[k] == x);
                    assert(shorter.filter(keep).contains(x));
                    let m = choose|m: int| 0 <= m < shorter.len() && shorter[m] == x;
                    assert(s[m] == x);
                } else {
                    assert(s[s.len() - 1] == x);
                }
            }
            if s.contains(x) && keep(x) {
                let m = choose|m: int| 0 <= m < s.len() && s[m] == x;
                if m < shorter.len() {
                    assert(shorter[m] == x);
                    assert(shorter.filter(keep).contains(x));
                    let k = choose|k: int|
                        0 <= k < shorter.filter(keep).len() && shorter.filter(keep)[k] == x;
                    assert(s.filter(keep)[k] == x);
                } else {
                    assert(s.filter(keep)[s.filter(keep).len() - 1] == x);
                }
            }
        }
    }
}

/// Where rows are in order, `n` of them open before `t`.
proof fn split_at(rows: Seq<Candle>, t: i64, n: int)
    requires
        in_time_order(rows),
        0 <= n <= rows.len(),
        forall|i: int| 0 <= i < n ==> (#[trigger] rows[i]).open_time < t,
        forall|i: int| n <= i < rows.len() ==> (#[trigger] rows[i]).open_time >= t,
    ensures
        before(rows, t) == rows.take(n),
        after(rows, t) == if n < rows.len() && rows[n].open_time == t {
            rows.skip(n + 1)
        } else {
            rows.skip(n)
        },
{
    filter_is_prefix(rows, |row: Candle| row.open_time < t, n);
    let m = if n < rows.len() && rows[n].open_time == t {
        n + 1
    } else {
        n
    };
    filter_is_suffix(rows, |row: Candle| row.open_time > t, m);
}

/// How many rows open before `t`, found by halving.
fn slot(rows: &Vec<Candle>, t: i64) -> (r: usize)
    requires
        in_time_order(rows@),
    ensures
        r <= rows@.len(),
        forall|i: int| 0 <= i < r ==> (#[trigger] rows@[i]).open_time < t,
        forall|i: int| r <= i < rows@.len() ==> (#[trigger] rows@[i]).open_time >= t,
{
    let mut low: usize = 0;
    let mut high: usize = rows.len();
    while low < high
        invariant
            low <= high <= rows@.len(),
            in_time_order(rows@),
            forall|i: int| 0 <= i < low ==> (#[trigger] rows@[i]).open_time < t,
            forall|i: int| high <= i < rows@.len() ==> (#[trigger] rows@[i]).open_time >= t,
        decreases high - low,
    {
        let middle: usize = low + (high - low) / 2;
        if rows[middle].open_time < t {
            low = middle + 1;
        } else {
            high = middle;
        }
    }
    low
}

/// Puts a candle at its place.
pub(crate) fn put_row(rows: &mut Vec<Candle>, candle: Candle)
    requires
        in_time_order(old(rows)@),
    ensures
        final(rows)@ == with_row(old(rows)@, candle),
        in_time_order(final(rows)@),
        final(rows)@.len() == old(rows)@.len() + if has_time(old(rows)@, candle.open_time) {
            0int
        } else {
            1
        },
{
    let ghost rows0 = rows@;
    let at: usize = slot(rows, candle.open_time);
    proof {
        split_at(rows0, candle.open_time, at as int);
    }
    if at < rows.len() && rows[at].open_time == candle.open_time {
        assert(has_time(rows0, candle.open_time));
        rows.set(at, candle);
        assert(rows@ =~= with_row(rows0, candle));
    } else {
        rows.insert(at, candle);
        assert(rows@ =~= with_row(rows0, candle));
        assert(!has_time(rows0, candle.open_time));
    }
}

/// One of the rows opens at `t`.
pub open spec fn has_time(rows: Seq<Candle>, t: i64) -> bool {
    exists|i: int| 0 <= i < rows.len() && (#[trigger] rows[i]).open_time == t
}

/// Drops the oldest rows until `limit` are left.
pub(crate) fn keep_newest(rows: &mut Vec<Candle>, limit: usize)
    ensures
        final(rows)@ == newest(old(rows)@, limit as int),
{
    if rows.len() > limit {
        let excess: usize = rows.len() - limit;
        let kept = rows.split_off(excess);
        *rows = kept;
        assert(rows@ =~= newest(old(rows)@, limit as int));
    }
}

/// Picks the rows in the window.
pub(crate) fn pick_window(rows: &Vec<Candle>, start: Option<i64>, end: Option<i64>) -> (r: Vec<
    Candle,
>)
    ensures
        r@ == window(rows@, start, end),
{
    let ghost keep = |row: Candle| in_window(row, start, end);
    let mut out: Vec<Candle> = Vec::new();
    let mut i: usize = 0;
    assert(rows@.take(0).filter(keep) =~= Seq::<Candle>::empty()) by {
        reveal(Seq::filter);
    }
    while i < rows.len()
        invariant
            i <= rows@.len(),
            keep == (|row: Candle| in_window(row, start, end)),
            out@ == rows@.take(i as int).filter(keep),
        decreases rows@.len() - i,
    {
        let row = rows[i];
        assert(rows@.take(i + 1).drop_last() =~= rows@.take(i as int));
        proof {
            reveal(Seq::filter);
        }
        let not_early = match start {
            Some(first) => row.open_time >= first,
            None => true,
        };
        let not_late = match end {
            Some(last) => row.open_time <= last,
            None => true,
        };
        if not_early && not_late {
            out.push(row);
        }
        i += 1;
    }
    assert(rows@.take(rows@.len() as int) =~= rows@);
    out
}

/// Copies the rows.
pub(crate) fn copy_rows(rows: &Vec<Candle>) -> (r: Vec<Candle>)
    ensures
        r@ == rows@,
{
    let mut out: Vec<Candle> = Vec::new();
    let mut i: usize = 0;
    while i < rows.len()
        invariant
            i <= rows@.len(),
            out@ == rows@.take(i as int),
        decreases rows@.len() - i,
    {
        out.push(rows[i]);
        i += 1;
        assert(out@ =~= rows@.take(i as int));
    }
    assert(out@ =~= rows@);
    out
}

/// The rows with a candle put in, by place.
proof fn placed_row(rows: Seq<Candle>, candle: Candle) -> (n: int)
    requires
        in_time_order(rows),
    ensures
        0 <= n <= rows.len(),
        before(rows, candle.open_time) == rows.take(n),
        with_row(rows, candle).len() > n,
        with_row(rows, candle)[n] == candle,
        with_row(rows, candle).take(n) == rows.take(n),
        with_row(rows, candle).skip(n + 1) == after(rows, candle.open_time),
        in_time_order(with_row(rows, candle)),
        forall|i: int| 0 <= i < n ==> (#[trigger] rows[i]).open_time < candle.open_time,
        forall|i: int| n <= i < rows.len() ==> (#[trigger] rows[i]).open_time >= candle.open_time,
{
    let t = candle.open_time;
    let n = first_at_or_after(rows, t);
    split_at(rows, t, n);
    let out = with_row(rows, candle);
    assert(out.take(n) =~= rows.take(n));
    assert(out.skip(n + 1) =~= after(rows, t));
    let late = if n < rows.len() && rows[n].open_time == t {
        n + 1
    } else {
        n
    };
    assert forall|i: int, j: int| 0 <= i < j < out.len() implies (#[trigger] out[i]).open_time < (
    #[trigger] out[j]).open_time by {
        if i < n {
            assert(out[i] == rows[i]);
        } else if i > n {
            assert(out[i] == rows[late + i - n - 1]);
        }
        if j < n {
            assert(out[j] == rows[j]);
        } else if j > n {
            assert(out[j] == rows[late + j - n - 1]);
        }
    }
    n
}

/// Putting a candle keeps the rows in order, puts the candle there and drops
/// only the row that opened at the same time.
pub proof fn putting_a_row(rows: Seq<Candle>, candle: Candle)
    requires
        in_time_order(rows),
    ensures
        in_time_order(with_row(rows, candle)),
        forall|row: Candle| #[trigger]
            with_row(rows, candle).contains(row) <==> row == candle || (rows.contains(row)
                && row.open_time != candle.open_time),
{
    let t = candle.open_time;
    let n = placed_row(rows, candle);
    let out = with_row(rows, candle);
    let early = before(rows, t);
    let late = after(rows, t);
    filter_keeps(rows, |row: Candle| row.open_time < t);
    filter_keeps(rows, |row: Candle| row.open_time > t);
    assert forall|row: Candle| #[trigger] out.contains(row) <==> row == candle || (rows.contains(row)
        && row.open_time != t) by {
        assert(early.contains(row) <==> rows.contains(row) && row.open_time < t);
        assert(late.contains(row) <==> rows.contains(row) && row.open_time > t);
        if out.contains(row) {
            let k = choose|k: int| 0 <= k < out.len() && out[k] == row;
            if k < n {
                assert(early[k] == row);
            } else if k > n {
                assert(late[k - n - 1] == row);
            }
        }
        if row == candle {
            assert(out[n] == row);
        } else if early.contains(row) {
            let k = choose|k: int| 0 <= k < early.len() && early[k] == row;
            assert(out[k] == row);
        } else if late.contains(row) {
            let k = choose|k: int| 0 <= k < late.len() && late[k] == row;
            assert(out[n + 1 + k] == row);
        }
    }
}

/// Putting the same candle again changes nothing.
pub proof fn putting_a_row_again(rows: Seq<Candle>, candle: Candle)
    requires
        in_time_order(rows),
    ensures
        with_row(with_row(rows, candle), candle) == with_row(rows, candle),
{
    let n = placed_row(rows, candle);
    let out = with_row(rows, candle);
    assert forall|i: int| 0 <= i < n implies (#[trigger] out[i]).open_time < candle.open_time by {
        assert(out[i] == out.take(n)[i]);
        assert(rows.take(n)[i] == rows[i]);
    }
    split_at(out, candle.open_time, n);
    assert(with_row(out, candle) =~= out);
}

/// The number of rows that open before `t`.
spec fn first_at_or_after_from(rows: Seq<Candle>, t: i64, from: int) -> int
    decreases rows.len() - from,
{
    if from >= rows.len() || rows[from].open_time >= t {
        from
    } else {
        first_at_or_after_from(rows, t, from + 1)
    }
}

proof fn first_at_or_after(rows: Seq<Candle>, t: i64) -> (n: int)
    requires
        in_time_order(rows),
    ensures
        0 <= n <= rows.len(),
        forall|i: int| 0 <= i < n ==> (#[trigger] rows[i]).open_time < t,
        forall|i: int| n <= i < rows.len() ==> (#[trigger] rows[i]).open_time >= t,
{
    first_at_or_after_rec(rows, t, 0);
    first_at_or_after_from(rows, t, 0)
}

proof fn first_at_or_after_rec(rows: Seq<Candle>, t: i64, from: int)
    requires
        in_time_order(rows),
        0 <= from <= rows.len(),
        forall|i: int| 0 <= i < from ==> (#[trigger] rows[i]).open_time < t,
    ensures
        ({
            let n = first_at_or_after_from(rows, t, from);
            &&& 0 <= n <= rows.len()
            &&& forall|i: int| 0 <= i < n ==> (#[trigger] rows[i]).open_time < t
            &&& forall|i: int| n <= i < rows.len() ==> (#[trigger] rows[i]).open_time >= t
        }),
    decreases rows.len() - from,
{
    if from < rows.len() && rows[from].open_time < t {
        first_at_or_after_rec(rows, t, from + 1);
    }
}

// ---------------------------------------------------------------------------
// Tables.
// ---------------------------------------------------------------------------

/// One series with what is kept for it.
#[derive(Debug, PartialEq, Eq)]
pub struct SeriesEntry<V> {
    pub symbol: String,
    pub interval: String,
    pub value: V,
}

impl<V> SeriesEntry<V> {
    pub open spec fn key(self) -> (Seq<char>, Seq<char>) {
        (self.symbol@, self.interval@)
    }
}

/// No two entries are of the same series.
pub open spec fn one_per_series<V>(entries: Seq<SeriesEntry<V>>) -> bool {
    forall|i: int, j: int|
        0 <= i < j < entries.len() ==> (#[trigger] entries[i]).key() != (#[trigger] entries[j]).key()
}

/// Entry number `i` is that of the series.
pub open spec fn entry_at<V>(
    entries: Seq<SeriesEntry<V>>,
    key: (Seq<char>, Seq<char>),
    i: int,
) -> bool {
    0 <= i < entries.len() && entries[i].key() == key
}

/// What is kept, by series.
pub open spec fn by_series<V>(entries: Seq<SeriesEntry<V>>) -> Map<(Seq<char>, Seq<char>), V> {
    Map::new(
        |key: (Seq<char>, Seq<char>)| exists|i: int| #[trigger] entry_at(entries, key, i),
        |key: (Seq<char>, Seq<char>)| entries[choose|i: int| #[trigger] entry_at(entries, key, i)].value,
    )
}

/// What the map has of an entry.
pub proof fn series_of_entry<V>(entries: Seq<SeriesEntry<V>>, i: int)
    requires
        one_per_series(entries),
        0 <= i < entries.len(),
    ensures
        by_series(entries).contains_key(entries[i].key()),
        by_series(entries)[entries[i].key()] == entries[i].value,
{
    let key = entries[i].key();
    assert(entry_at(entries, key, i));
    let j = choose|j: int| #[trigger] entry_at(entries, key, j);
    assert(entry_at(entries, key, j));
    if j < i {
        assert(entries[j].key() != entries[i].key());
    } else if i < j {
        assert(entries[i].key() != entries[j].key());
    }
}

/// Values by symbol and interval.
#[derive(Debug)]
pub struct SeriesTable<V> {
    entries: Vec<SeriesEntry<V>>,
}

impl<V> SeriesTable<V> {
    pub closed spec fn listing(self) -> Seq<SeriesEntry<V>> {
        self.entries@
    }

    pub open spec fn view(self) -> Map<(Seq<char>, Seq<char>), V> {
        by_series(self.listing())
    }

    pub open spec fn wf(self) -> bool {
        one_per_series(self.listing())
    }

    pub fn new() -> (r: Self)
        ensures
            r.wf(),
            r.listing().len() == 0,
            r@ == Map::<(Seq<char>, Seq<char>), V>::empty(),
    {
        let r = SeriesTable { entries: Vec::new() };
        assert(r@ =~= Map::<(Seq<char>, Seq<char>), V>::empty());
        r
    }

    fn position(&self, symbol: &str, interval: &str) -> (r: Option<usize>)
        ensures
            match r {
                Some(i) => entry_at(self.listing(), (symbol@, interval@), i as int),
                None => forall|i: int| !#[trigger] entry_at(self.listing(), (symbol@, interval@), i),
            },
    {
        let mut i: usize = 0;
        while i < self.entries.len()
            invariant
                i <= self.entries@.len(),
                forall|j: int|
                    0 <= j < i ==> !#[trigger] entry_at(self.listing(), (symbol@, interval@), j),
            decreases self.entries@.len() - i,
        {
            if same_text(self.entries[i].symbol.as_str(), symbol) && same_text(
                self.entries[i].interval.as_str(),
                interval,
            ) {
                return Some(i);
            }
            i += 1;
        }
        None
    }

    pub fn get(&self, symbol: &str, interval: &str) -> (r: Option<&V>)
        requires
            self.wf(),
        ensures
            match r {
                Some(value) => self@.contains_key((symbol@, interval@)) && *value == self@[(
                    symbol@,
                    interval@,
                )],
                None => !self@.contains_key((symbol@, interval@)),
            },
    {
        match self.position(symbol, interval) {
            Some(i) => {
                proof {
                    series_of_entry(self.listing(), i as int);
                }
                Some(&self.entries[i].value)
            },
            None => None,
        }
    }

    /// Sets the value of a series.
    pub fn insert(&mut self, symbol: String, interval: String, value: V)
        requires
            old(self).wf(),
        ensures
            final(self).wf(),
            final(self)@ == old(self)@.insert((symbol@, interval@), value),
            !old(self)@.contains_key((symbol@, interval@)) ==> final(self).listing() == old(
                self,
            ).listing().push(SeriesEntry { symbol, interval, value }),
    {
        let ghost entries0 = self.entries@;
        let ghost key = (symbol@, interval@);
        let found = self.position(symbol.as_str(), interval.as_str());
        let entry = SeriesEntry { symbol, interval, value };
        match found {
            Some(i) => {
                self.entries.set(i, entry);
                proof {
                    assert(self.entries@ =~= entries0.update(i as int, entry));
                    updated_map(entries0, self.entries@, i as int, key);
                }
            },
            None => {
                self.entries.push(entry);
                proof {
                    assert forall|i: int, j: int| 0 <= i < j < self.entries@.len() implies (
                    #[trigger] self.entries@[i]).key() != (#[trigger] self.entries@[j]).key() by {
                        if j == entries0.len() {
                            assert(!entry_at(entries0, key, i));
                        }
                    }
                    let i = entries0.len() as int;
                    let m = by_series(self.entries@);
                    assert forall|k: (Seq<char>, Seq<char>)|
                        k != key implies (m.contains_key(k) <==> by_series(entries0).contains_key(
                        k,
                    )) by {
                        same_entry(entries0, self.entries@, k, i);
                    }
                    series_of_entry(self.entries@, i);
                    assert forall|k: (Seq<char>, Seq<char>)|
                        k != key && m.contains_key(k) implies m[k] == by_series(entries0)[k] by {
                        same_entry(entries0, self.entries@, k, i);
                    }
                    assert(m =~= by_series(entries0).insert(key, entry.value));
                }
            },
        }
    }

    /// Takes the value of a series out.
    pub fn remove(&mut self, symbol: &str, interval: &str) -> (r: Option<V>)
        requires
            old(self).wf(),
        ensures
            final(self).wf(),
            final(self)@ == old(self)@.remove((symbol@, interval@)),
            match r {
                Some(value) => old(self)@.contains_key((symbol@, interval@)) && value == old(
                    self,
                )@[(symbol@, interval@)],
                None => !old(self)@.contains_key((symbol@, interval@)) && final(self).listing()
                    == old(self).listing(),
            },
            r matches Some(value) ==> exists|i: int| #[trigger]
                entry_at(old(self).listing(), (symbol@, interval@), i) && value == old(
                    self,
                ).listing()[i].value && final(self).listing() == old(self).listing().remove(i),
    {
        let ghost entries0 = self.entries@;
        let ghost key = (symbol@, interval@);
        match self.position(symbol, interval) {
            Some(i) => {
                proof {
                    series_of_entry(entries0, i as int);
                }
                let entry = self.entries.remove(i);
                proof {
                    removed_map(entries0, self.entries@, i as int, key);
                }
                Some(entry.value)
            },
            None => {
                assert(by_series(entries0) =~= by_series(entries0).remove(key));
                None
            },
        }
    }

    /// Takes all entries out.
    pub fn drain(&mut self) -> (r: Vec<SeriesEntry<V>>)
        ensures
            r@ == old(self).listing(),
            final(self).listing().len() == 0,
            final(self).wf(),
            final(self)@ == Map::<(Seq<char>, Seq<char>), V>::empty(),
    {
        let mut entries: Vec<SeriesEntry<V>> = Vec::new();
        std::mem::swap(&mut entries, &mut self.entries);
        assert(self@ =~= Map::<(Seq<char>, Seq<char>), V>::empty());
        entries
    }

    pub fn len(&self) -> (r: usize)
        ensures
            r == self.listing().len(),
    {
        self.entries.len()
    }

    pub fn entry(&self, i: usize) -> (r: &SeriesEntry<V>)
        requires
            i < self.listing().len(),
        ensures
            *r == self.listing()[i as int],
    {
        &self.entries[i]
    }
}

/// Entries that agree up to number `n`, where the rest is of another series,
/// have the same value for a series.
proof fn same_entry<V>(
    a: Seq<SeriesEntry<V>>,
    b: Seq<SeriesEntry<V>>,
    key: (Seq<char>, Seq<char>),
    n: int,
)
    requires
        one_per_series(a),
        one_per_series(b),
        a.len() == n,
        b.len() == n + 1,
        forall|i: int| 0 <= i < n ==> a[i] == #[trigger] b[i],
        b[n].key() != key,
    ensures
        by_series(a).contains_key(key) <==> by_series(b).contains_key(key),
        by_series(a).contains_key(key) ==> by_series(a)[key] == by_series(b)[key],
{
    if by_series(a).contains_key(key) {
        let i = choose|i: int| #[trigger] entry_at(a, key, i);
        series_of_entry(a, i);
        assert(b[i] == a[i]);
        series_of_entry(b, i);
    }
    if by_series(b).contains_key(key) {
        let i = choose|i: int| #[trigger] entry_at(b, key, i);
        assert(entry_at(b, key, i));
        assert(i < n);
        assert(a[i] == b[i]);
        assert(entry_at(a, key, i));
    }
}

proof fn updated_map<V>(
    a: Seq<SeriesEntry<V>>,
    b: Seq<SeriesEntry<V>>,
    n: int,
    key: (Seq<char>, Seq<char>),
)
    requires
        one_per_series(a),
        entry_at(a, key, n),
        b.len() == a.len(),
        b[n].key() == key,
        forall|i: int| 0 <= i < a.len() && i != n ==> a[i] == #[trigger] b[i],
    ensures
        one_per_series(b),
        by_series(b) == by_series(a).insert(key, b[n].value),
{
    assert forall|i: int, j: int| 0 <= i < j < b.len() implies (#[trigger] b[i]).key() != (
    #[trigger] b[j]).key() by {
        assert(a[i].key() != a[j].key());
    }
    series_of_entry(b, n);
    series_of_entry(a, n);
    assert_maps_equal!(by_series(b), by_series(a).insert(key, b[n].value), k => {
        if k != key {
            if by_series(a).contains_key(k) {
                let i = choose|i: int| #[trigger] entry_at(a, k, i);
                assert(entry_at(a, k, i));
                assert(b[i] == a[i]);
                series_of_entry(a, i);
                series_of_entry(b, i);
            }
            if by_series(b).contains_key(k) {
                let i = choose|i: int| #[trigger] entry_at(b, k, i);
                assert(entry_at(b, k, i));
                assert(b[i] == a[i]);
                assert(entry_at(a, k, i));
            }
        }
    });
}

proof fn removed_map<V>(
    a: Seq<SeriesEntry<V>>,
    b: Seq<SeriesEntry<V>>,
    n: int,
    key: (Seq<char>, Seq<char>),
)
    requires
        one_per_series(a),
        entry_at(a, key, n),
        b == a.remove(n),
    ensures
        one_per_series(b),
        by_series(b) == by_series(a).remove(key),
{
    assert forall|i: int, j: int| 0 <= i < j < b.len() implies (#[trigger] b[i]).key() != (
    #[trigger] b[j]).key() by {
        let x = if i < n {
            i
        } else {
            i + 1
        };
        let y = if j < n {
            j
        } else {
            j + 1
        };
        assert(b[i] == a[x] && b[j] == a[y]);
    }
    assert_maps_equal!(by_series(b), by_series(a).remove(key), k => {
        if by_series(a).contains_key(k) && k != key {
            let i = choose|i: int| #[trigger] entry_at(a, k, i);
            assert(entry_at(a, k, i));
            series_of_entry(a, i);
            let x = if i < n {
                i
            } else {
                i - 1
            };
            assert(b[x] == a[i]);
            series_of_entry(b, x);
        }
        if by_series(b).contains_key(k) {
            let i = choose|i: int| #[trigger] entry_at(b, k, i);
            assert(entry_at(b, k, i));
            let x = if i < n {
                i
            } else {
                i + 1
            };
            assert(b[i] == a[x]);
            if x < n {
                assert(a[x].key() != a[n].key());
            } else {
                assert(a[n].key() != a[x].key());
            }
            assert(entry_at(a, k, x));
        }
    });
}

} // verus!
