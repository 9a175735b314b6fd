//! What to follow: the streams, the native candles and the custom intervals
//! that the subscriptions ask for.

use crate::config::{copy_intervals, RealtimeSource, SubscriptionView, SymbolSubscription};
use crate::domain::interval::Interval;
use crate::order::{insert_row, rows_of, strictly_sorted};
use crate::text::{join, joined, lowercase, same_text, texts_of, to_lower};
use vstd::prelude::*;
use vstd::string::*;

verus! {

/// A native series to fetch.
#[derive(Debug)]
pub struct KlineSource {
    pub symbol: String,
    pub canonical_interval: String,
    pub binance_interval: &'static str,
    pub interval: Interval,
}

/// A native series as a value.
pub struct SourceView {
    pub symbol: Seq<char>,
    pub canonical: Seq<char>,
    pub native: Seq<char>,
    pub interval: Interval,
}

impl KlineSource {
    pub open spec fn view(self) -> SourceView {
        SourceView {
            symbol: self.symbol@,
            canonical: self.canonical_interval@,
            native: self.binance_interval@,
            interval: self.interval,
        }
    }
}

/// The subscriptions in force.
#[derive(Debug)]
pub struct SubscriptionPlan {
    subscriptions: Vec<SymbolSubscription>,
}

pub open spec fn views_of(subscriptions: Seq<SymbolSubscription>) -> Seq<SubscriptionView> {
    subscriptions.map_values(|subscription: SymbolSubscription| subscription@)
}

/// The subscriptions that name a symbol and an interval.
pub open spec fn usable(subscriptions: Seq<SubscriptionView>) -> Seq<SubscriptionView> {
    subscriptions.filter(|s: SubscriptionView| s.symbol.len() > 0 && s.intervals.len() > 0)
}

/// The stream of a subscription.
pub open spec fn stream_name(subscription: SubscriptionView) -> Seq<char> {
    lowercase(subscription.symbol) + match subscription.source_in_use() {
        RealtimeSource::Trade => "@aggTrade"@,
        _ => "@kline_1m"@,
    }
}

/// Texts as rows of one.
pub open spec fn singles(list: Seq<String>) -> Seq<Seq<Seq<char>>> {
    list.map_values(|s: String| seq![s@])
}

pub open spec fn pairs(list: Seq<(String, String)>) -> Seq<Seq<Seq<char>>> {
    list.map_values(|t: (String, String)| seq![t.0@, t.1@])
}

pub open spec fn triples(list: Seq<(String, String, String)>) -> Seq<Seq<Seq<char>>> {
    list.map_values(|t: (String, String, String)| seq![t.0@, t.1@, t.2@])
}

/// The kinds of series that a subscription leads to.
#[derive(Debug, Clone, Copy, PartialEq, Eq, Structural)]
pub enum TargetKind {
    /// Custom intervals with the native interval that they are built from.
    Aggregation,
    /// Intervals that are built live from one-minute candles.
    Realtime,
    /// Intervals that are built live from trades.
    Trade,
    /// All of them.
    Configured,
}

/// What an interval of a subscription leads to.
pub open spec fn target_row(
    kind: TargetKind,
    subscription: SubscriptionView,
    interval: Interval,
) -> Option<Seq<Seq<char>>> {
    match kind {
        TargetKind::Aggregation => match interval.base() {
            Some(base) => Some(seq![subscription.symbol, base.name(), interval.name()]),
            None => None,
        },
        TargetKind::Realtime => if subscription.source_in_use() == RealtimeSource::Kline1m
            && interval.millis() > 60_000 {
            Some(seq![subscription.symbol, "1"@, interval.name()])
        } else {
            None
        },
        TargetKind::Trade => if subscription.source_in_use() == RealtimeSource::Trade {
            Some(seq![subscription.symbol, interval.name()])
        } else {
            None
        },
        TargetKind::Configured => Some(seq![subscription.symbol, interval.name()]),
    }
}

/// Interval number `i` of subscription number `s` leads to the row.
pub open spec fn leads_to(
    subscriptions: Seq<SubscriptionView>,
    kind: TargetKind,
    s: int,
    i: int,
    row: Seq<Seq<char>>,
) -> bool {
    &&& 0 <= s < subscriptions.len()
    &&& 0 <= i < subscriptions[s].intervals.len()
    &&& target_row(kind, subscriptions[s], subscriptions[s].intervals[i]) == Some(row)
}

/// Some interval leads to the row.
pub open spec fn wanted(
    subscriptions: Seq<SubscriptionView>,
    kind: TargetKind,
    row: Seq<Seq<char>>,
) -> bool {
    exists|s: int, i: int| #[trigger] leads_to(subscriptions, kind, s, i, row)
}

/// The list has what is wanted, each once, in order.
pub open spec fn lists_wanted(
    subscriptions: Seq<SubscriptionView>,
    kind: TargetKind,
    list: Seq<Seq<Seq<char>>>,
) -> bool {
    &&& strictly_sorted(list)
    &&& forall|row: Seq<Seq<char>>| #[trigger]
        list.contains(row) <==> wanted(subscriptions, kind, row)
}

/// The list has the streams of the subscriptions, each once, in order.
pub open spec fn lists_streams(subscriptions: Seq<SubscriptionView>, list: Seq<String>) -> bool {
    &&& strictly_sorted(singles(list))
    &&& forall|row: Seq<Seq<char>>| #[trigger]
        singles(list).contains(row) <==> stream_wanted(subscriptions, row)
}

pub open spec fn stream_wanted(subscriptions: Seq<SubscriptionView>, row: Seq<Seq<char>>) -> bool {
    exists|s: int|
        0 <= s < subscriptions.len() && row == seq![stream_name(#[trigger] subscriptions[s])]
}

/// A plan has streams exactly if it has subscriptions.
pub proof fn no_streams_without_subscriptions(
    subscriptions: Seq<SubscriptionView>,
    list: Seq<String>,
)
    requires
        lists_streams(subscriptions, list),
    ensures
        list.len() == 0 <==> subscriptions.len() == 0,
{
    if subscriptions.len() > 0 {
        let row = seq![stream_name(subscriptions[0])];
        assert(stream_wanted(subscriptions, row));
        assert(singles(list).contains(row));
    }
    if list.len() > 0 {
        assert(singles(list).contains(singles(list)[0]));
    }
}

/// The native series that an interval needs: its own, or that of its base.
/// Intervals below a minute have none.
pub open spec fn interval_source(subscription: SubscriptionView, interval: Interval) -> Option<
    SourceView,
> {
    let source = match interval.base() {
        Some(base) => base,
        None => interval,
    };
    if interval.millis() < 60_000 {
        None
    } else {
        match source.native_name() {
            Some(native) => Some(
                SourceView {
                    symbol: subscription.symbol,
                    canonical: source.name(),
                    native,
                    interval: source,
                },
            ),
            None => None,
        }
    }
}

/// The native series that the first `n` intervals need.
pub open spec fn interval_sources(subscription: SubscriptionView, n: int) -> Seq<SourceView>
    decreases n,
{
    if n <= 0 {
        Seq::empty()
    } else {
        let earlier = interval_sources(subscription, n - 1);
        match interval_source(subscription, subscription.intervals[n - 1]) {
            Some(source) => earlier.push(source),
            None => earlier,
        }
    }
}

pub open spec fn minute_source(symbol: Seq<char>) -> SourceView {
    SourceView { symbol, canonical: "1"@, native: "1m"@, interval: Interval::Minutes(1) }
}

pub open spec fn day_source(symbol: Seq<char>) -> SourceView {
    SourceView { symbol, canonical: "D"@, native: "1d"@, interval: Interval::Days(1) }
}

/// One of the intervals is longer than a day.
pub open spec fn beyond_a_day(subscription: SubscriptionView) -> bool {
    exists|i: int|
        0 <= i < subscription.intervals.len() && (#[trigger] subscription.intervals[i]).millis()
            > 86_400_000
}

/// What live candles are started from: minutes, and days where an interval is
/// longer than one.
pub open spec fn seed_sources(subscription: SubscriptionView) -> Seq<SourceView> {
    if subscription.source_in_use() == RealtimeSource::Kline1m {
        if beyond_a_day(subscription) {
            seq![minute_source(subscription.symbol), day_source(subscription.symbol)]
        } else {
            seq![minute_source(subscription.symbol)]
        }
    } else {
        Seq::empty()
    }
}

/// All that the subscriptions need, in turn.
pub open spec fn needed_sources(subscriptions: Seq<SubscriptionView>) -> Seq<SourceView>
    decreases subscriptions.len(),
{
    if subscriptions.len() == 0 {
        Seq::empty()
    } else {
        let last = subscriptions.last();
        needed_sources(subscriptions.drop_last()) + interval_sources(
            last,
            last.intervals.len() as int,
        ) + seed_sources(last)
    }
}

/// The series is there already.
pub open spec fn has_series(sources: Seq<SourceView>, source: SourceView) -> bool {
    exists|i: int|
        0 <= i < sources.len() && (#[trigger] sources[i]).symbol == source.symbol
            && sources[i].canonical == source.canonical
}

/// Each series once, where it is first needed.
pub open spec fn each_once(sources: Seq<SourceView>) -> Seq<SourceView>
    decreases sources.len(),
{
    if sources.len() == 0 {
        Seq::empty()
    } else {
        let earlier = each_once(sources.drop_last());
        if has_series(earlier, sources.last()) {
            earlier
        } else {
            earlier.push(sources.last())
        }
    }
}

pub open spec fn source_views(sources: Seq<KlineSource>) -> Seq<SourceView> {
    sources.map_values(|source: KlineSource| source@)
}

fn target(kind: TargetKind, subscription: &SymbolSubscription, interval: Interval) -> (r: Option<
    Vec<String>,
>)
    ensures
        match r {
            Some(row) => target_row(kind, subscription@, interval) == Some(texts_of(row@)),
            None => target_row(kind, subscription@, interval) is None,
        },
{
    let mut row: Vec<String> = Vec::new();
    row.push(subscription.symbol.clone());
    match kind {
        TargetKind::Aggregation => match interval.aggregation_base() {
            Some(base) => {
                row.push(base.canonical());
                row.push(interval.canonical());
                assert(texts_of(row@) =~= seq![
                    subscription.symbol@,
                    base.name(),
                    interval.name(),
                ]);
                Some(row)
            },
            None => None,
        },
        TargetKind::Realtime => {
            if subscription.resolved_source() == RealtimeSource::Kline1m && interval.as_millis()
                > 60_000 {
                row.push("1".to_owned());
                row.push(interval.canonical());
                assert(texts_of(row@) =~= seq![subscription.symbol@, "1"@, interval.name()]);
                Some(row)
            } else {
                None
            }
        },
        TargetKind::Trade => {
            if subscription.resolved_source() == RealtimeSource::Trade {
                row.push(interval.canonical());
                assert(texts_of(row@) =~= seq![subscription.symbol@, interval.name()]);
                Some(row)
            } else {
                None
            }
        },
        TargetKind::Configured => {
            row.push(interval.canonical());
            assert(texts_of(row@) =~= seq![subscription.symbol@, interval.name()]);
            Some(row)
        },
    }
}

fn add_source(sources: &mut Vec<KlineSource>, source: KlineSource)
    ensures
        source_views(final(sources)@) == if has_series(source_views(old(sources)@), source@) {
            source_views(old(sources)@)
        } else {
            source_views(old(sources)@).push(source@)
        },
{
    let mut i: usize = 0;
    while i < sources.len()
        invariant
            i <= sources@.len(),
            sources@ == old(sources)@,
            forall|j: int|
                0 <= j < i ==> !((#[trigger] source_views(sources@)[j]).symbol == source@.symbol
                    && source_views(sources@)[j].canonical == source@.canonical),
        decreases sources@.len() - i,
    {
        if same_text(sources[i].symbol.as_str(), source.symbol.as_str()) && same_text(
            sources[i].canonical_interval.as_str(),
            source.canonical_interval.as_str(),
        ) {
            assert(source_views(sources@)[i as int].symbol == source@.symbol);
            return ;
        }
        i += 1;
    }
    sources.push(source);
    assert(source_views(sources@) =~= source_views(old(sources)@).push(source@));
}

proof fn each_once_push(sources: Seq<SourceView>, source: SourceView)
    ensures
        each_once(sources.push(source)) == if has_series(each_once(sources), source) {
            each_once(sources)
        } else {
            each_once(sources).push(source)
        },
{
    assert(sources.push(source).drop_last() =~= sources);
}

impl SubscriptionPlan {
    pub closed spec fn view(self) -> Seq<SubscriptionView> {
        views_of(self.subscriptions@)
    }

    /// Every symbol at all the intervals.
    pub fn new(symbols: Vec<String>, intervals: Vec<Interval>) -> (r: Self)
        ensures
            r@ == usable(
                symbols@.map_values(
                    |symbol: String|
                        SubscriptionView {
                            symbol: crate::config::settled(symbol@),
                            intervals: intervals@,
                            source: RealtimeSource::Auto,
                        },
                ),
            ),
    {
        let ghost wish = |symbol: String|
            SubscriptionView {
                symbol: crate::config::settled(symbol@),
                intervals: intervals@,
                source: RealtimeSource::Auto,
            };
        let mut subscriptions: Vec<SymbolSubscription> = Vec::new();
        let mut i: usize = 0;
        while i < symbols.len()
            invariant
                i <= symbols@.len(),
                wish == (|symbol: String|
                    SubscriptionView {
                        symbol: crate::config::settled(symbol@),
                        intervals: intervals@,
                        source: RealtimeSource::Auto,
                    }),
                subscriptions@.len() == i,
                forall|j: int| 0 <= j < i ==> (#[trigger] subscriptions@[j])@ == wish(symbols@[j]),
            decreases symbols@.len() - i,
        {
            subscriptions.push(
                SymbolSubscription::new(
                    symbols[i].as_str(),
                    copy_intervals(&intervals),
                    RealtimeSource::Auto,
                ),
            );
            i += 1;
        }
        assert(views_of(subscriptions@) =~= symbols@.map_values(wish));
        SubscriptionPlan::from_subscriptions(subscriptions)
    }

    pub fn from_subscriptions(subscriptions: Vec<SymbolSubscription>) -> (r: Self)
        ensures
            r@ == usable(views_of(subscriptions@)),
    {
        let ghost views = views_of(subscriptions@);
        let ghost keep = |s: SubscriptionView| s.symbol.len() > 0 && s.intervals.len() > 0;
        let mut kept: Vec<SymbolSubscription> = Vec::new();
        let mut i: usize = 0;
        assert(views.take(0).filter(keep) =~= Seq::<SubscriptionView>::empty()) by {
            reveal(Seq::filter);
        }
        assert(views_of(kept@) =~= Seq::<SubscriptionView>::empty());
        while i < subscriptions.len()
            invariant
                i <= subscriptions@.len(),
                views == views_of(subscriptions@),
                keep == (|s: SubscriptionView| s.symbol.len() > 0 && s.intervals.len() > 0),
                views_of(kept@) == views.take(i as int).filter(keep),
            decreases subscriptions@.len() - i,
        {
            let subscription = &subscriptions[i];
            let ghost before = kept@;
            assert(views.take(i + 1).drop_last() =~= views.take(i as int));
            proof {
                reveal(Seq::filter);
            }
            if subscription.symbol.as_str().unicode_len() > 0 && subscription.intervals.len() > 0 {
                kept.push(subscription.clone());
                assert(views_of(kept@) =~= views_of(before).push(subscription@));
            }
            i += 1;
        }
        assert(views.take(i as int) =~= views);
        SubscriptionPlan { subscriptions: kept }
    }

    /// The streams to subscribe to.
    pub fn streams(&self) -> (r: Vec<String>)
        ensures
            lists_streams(self@, r@),
    {
        let ghost views = self@;
        let mut table: Vec<Vec<String>> = Vec::new();
        let mut s: usize = 0;
        while s < self.subscriptions.len()
            invariant
                s <= self.subscriptions@.len(),
                views == self@,
                strictly_sorted(rows_of(table@)),
                forall|row: Seq<Seq<char>>| #[trigger]
                    rows_of(table@).contains(row) <==> stream_wanted(views.take(s as int), row),
            decreases self.subscriptions@.len() - s,
        {
            let subscription = &self.subscriptions[s];
            let ghost before = rows_of(table@);
            let lower = to_lower(subscription.symbol.as_str());
            let name = match subscription.resolved_source() {
                RealtimeSource::Trade => lower.concat("@aggTrade"),
                _ => lower.concat("@kline_1m"),
            };
            let mut row: Vec<String> = Vec::new();
            row.push(name);
            assert(views[s as int] == subscription@);
            assert(texts_of(row@) =~= seq![stream_name(views[s as int])]);
            insert_row(&mut table, row);
            proof {
                let now = views.take(s + 1);
                assert forall|row: Seq<Seq<char>>| #[trigger]
                    rows_of(table@).contains(row) <==> stream_wanted(now, row) by {
                    if before.contains(row) {
                        let k = choose|k: int|
                            0 <= k < s && row == seq![
                                stream_name(#[trigger] views.take(s as int)[k]),
                            ];
                        assert(now[k] == views.take(s as int)[k]);
                    }
                    assert(now[s as int] == views[s as int]);
                    if stream_wanted(now, row) {
                        let k = choose|k: int|
                            0 <= k < now.len() && row == seq![stream_name(#[trigger] now[k])];
                        if k < s {
                            assert(views.take(s as int)[k] == now[k]);
                            assert(stream_wanted(views.take(s as int), row));
                            assert(before.contains(row));
                        }
                    }
                }
            }
            s += 1;
        }
        assert(views.take(s as int) =~= views);
        let mut out: Vec<String> = Vec::new();
        let mut i: usize = 0;
        while i < table.len()
            invariant
                i <= table@.len(),
                out@.len() == i,
                forall|row: Seq<Seq<char>>| #[trigger]
                    rows_of(table@).contains(row) <==> stream_wanted(views, row),
                forall|j: int| 0 <= j < i ==> seq![(#[trigger] out@[j])@] == rows_of(table@)[j],
            decreases table@.len() - i,
        {
            assert(rows_of(table@).contains(rows_of(table@)[i as int]));
            assert(table@[i as int]@.len() == 1) by {
                assert(rows_of(table@)[i as int].len() == 1);
            }
            let text = table[i][0].clone();
            out.push(text);
            assert(seq![text@] =~= rows_of(table@)[i as int]);
            i += 1;
        }
        assert(singles(out@) =~= rows_of(table@));
        out
    }

    /// The address at which the streams of the plan are to be had.
    pub open spec fn has_url(self, url: Seq<char>) -> bool {
        exists|list: Seq<String>| #[trigger]
            lists_streams(self@, list) && url
                == "wss://fstream.binance.com/market/stream?streams="@ + joined(
                texts_of(list),
                "/"@,
            )
    }

    pub fn stream_url(&self) -> (r: String)
        ensures
            self.has_url(r@),
    {
        let streams = self.streams();
        let names = join(&streams, "/");
        "wss://fstream.binance.com/market/stream?streams=".to_owned().concat(names.as_str())
    }

    fn targets(&self, kind: TargetKind) -> (r: Vec<Vec<String>>)
        ensures
            lists_wanted(self@, kind, rows_of(r@)),
    {
        let ghost views = self@;
        let mut table: Vec<Vec<String>> = Vec::new();
        let mut s: usize = 0;
        while s < self.subscriptions.len()
            invariant
                s <= self.subscriptions@.len(),
                views == self@,
                strictly_sorted(rows_of(table@)),
                forall|row: Seq<Seq<char>>| #[trigger]
                    rows_of(table@).contains(row) <==> wanted_until(views, kind, s as int, 0, row),
            decreases self.subscriptions@.len() - s,
        {
            let subscription = &self.subscriptions[s];
            let mut i: usize = 0;
            while i < subscription.intervals.len()
                invariant
                    s < self.subscriptions@.len(),
                    *subscription == self.subscriptions@[s as int],
                    i <= subscription.intervals@.len(),
                    views == self@,
                    strictly_sorted(rows_of(table@)),
                    forall|row: Seq<Seq<char>>| #[trigger]
                        rows_of(table@).contains(row) <==> wanted_until(
                            views,
                            kind,
                            s as int,
                            i as int,
                            row,
                        ),
                decreases subscription.intervals@.len() - i,
            {
                let ghost before = rows_of(table@);
                assert(views[s as int] == subscription@);
                let ghost found = target_row(
                    kind,
                    views[s as int],
                    views[s as int].intervals[i as int],
                );
                match target(kind, subscription, subscription.intervals[i]) {
                    Some(row) => {
                        insert_row(&mut table, row);
                    },
                    None => {},
                }
                proof {
                    assert forall|row: Seq<Seq<char>>| #[trigger]
                        rows_of(table@).contains(row) <==> wanted_until(
                            views,
                            kind,
                            s as int,
                            i + 1,
                            row,
                        ) by {
                        assert(before.contains(row) <==> wanted_until(
                            views,
                            kind,
                            s as int,
                            i as int,
                            row,
                        ));
                        if found == Some(row) {
                            assert(leads_to(views, kind, s as int, i as int, row));
                        }
                    }
                }
                i += 1;
            }
            proof {
                assert forall|row: Seq<Seq<char>>| #[trigger]
                    rows_of(table@).contains(row) <==> wanted_until(
                        views,
                        kind,
                        s + 1,
                        0,
                        row,
                    ) by {
                    assert(views[s as int] == subscription@);
                    assert(rows_of(table@).contains(row) <==> wanted_until(
                        views,
                        kind,
                        s as int,
                        i as int,
                        row,
                    ));
                }
            }
            s += 1;
        }
        assert forall|row: Seq<Seq<char>>| #[trigger]
            rows_of(table@).contains(row) <==> wanted(views, kind, row) by {
            assert(rows_of(table@).contains(row) <==> wanted_until(views, kind, s as int, 0, row));
        }
        table
    }

    fn target_pairs(&self, kind: TargetKind) -> (r: Vec<(String, String)>)
        requires
            kind == TargetKind::Trade || kind == TargetKind::Configured,
        ensures
            lists_wanted(self@, kind, pairs(r@)),
    {
        let table = self.targets(kind);
        let ghost rows = rows_of(table@);
        let mut out: Vec<(String, String)> = Vec::new();
        let mut i: usize = 0;
        while i < table.len()
            invariant
                i <= table@.len(),
                rows == rows_of(table@),
                kind == TargetKind::Trade || kind == TargetKind::Configured,
                lists_wanted(self@, kind, rows),
                out@.len() == i,
                forall|j: int| 0 <= j < i ==> pairs(out@)[j] == #[trigger] rows[j],
            decreases table@.len() - i,
        {
            assert(rows.contains(rows[i as int]));
            assert(rows[i as int].len() == 2);
            assert(rows[i as int].len() == table@[i as int]@.len());
            out.push((table[i][0].clone(), table[i][1].clone()));
            assert(pairs(out@)[i as int] =~= rows[i as int]);
            i += 1;
        }
        assert(pairs(out@) =~= rows);
        out
    }

    fn target_triples(&self, kind: TargetKind) -> (r: Vec<(String, String, String)>)
        requires
            kind == TargetKind::Aggregation || kind == TargetKind::Realtime,
        ensures
            lists_wanted(self@, kind, triples(r@)),
    {
        let table = self.targets(kind);
        let ghost rows = rows_of(table@);
        let mut out: Vec<(String, String, String)> = Vec::new();
        let mut i: usize = 0;
        while i < table.len()
            invariant
                i <= table@.len(),
                rows == rows_of(table@),
                kind == TargetKind::Aggregation || kind == TargetKind::Realtime,
                lists_wanted(self@, kind, rows),
                out@.len() == i,
                forall|j: int| 0 <= j < i ==> triples(out@)[j] == #[trigger] rows[j],
            decreases table@.len() - i,
        {
            assert(rows.contains(rows[i as int]));
            assert(rows[i as int].len() == 3);
            assert(rows[i as int].len() == table@[i as int]@.len());
            out.push((table[i][0].clone(), table[i][1].clone(), table[i][2].clone()));
            assert(triples(out@)[i as int] =~= rows[i as int]);
            i += 1;
        }
        assert(triples(out@) =~= rows);
        out
    }

    /// The custom intervals: symbol, native base, interval.
    pub fn aggregation_targets(&self) -> (r: Vec<(String, String, String)>)
        ensures
            lists_wanted(self@, TargetKind::Aggregation, triples(r@)),
    {
        self.target_triples(TargetKind::Aggregation)
    }

    /// The intervals that are built live from one-minute candles: symbol,
    /// base, interval.
    pub fn realtime_kline_targets(&self) -> (r: Vec<(String, String, String)>)
        ensures
            lists_wanted(self@, TargetKind::Realtime, triples(r@)),
    {
        self.target_triples(TargetKind::Realtime)
    }

    /// The intervals that are built live from trades.
    pub fn trade_targets(&self) -> (r: Vec<(String, String)>)
        ensures
            lists_wanted(self@, TargetKind::Trade, pairs(r@)),
    {
        self.target_pairs(TargetKind::Trade)
    }

    /// All symbols and intervals.
    pub fn configured_targets(&self) -> (r: Vec<(String, String)>)
        ensures
            lists_wanted(self@, TargetKind::Configured, pairs(r@)),
    {
        self.target_pairs(TargetKind::Configured)
    }

    /// The native series to fetch.
    pub fn kline_sources(&self) -> (r: Vec<KlineSource>)
        ensures
            source_views(r@) == each_once(needed_sources(self@)),
    {
        let ghost views = self@;
        let mut sources: Vec<KlineSource> = Vec::new();
        let ghost mut needed: Seq<SourceView> = Seq::empty();
        let mut s: usize = 0;
        assert(source_views(sources@) =~= Seq::<SourceView>::empty());
        assert(views.take(0).len() == 0);
        while s < self.subscriptions.len()
            invariant
                s <= self.subscriptions@.len(),
                views == self@,
                needed == needed_sources(views.take(s as int)),
                source_views(sources@) == each_once(needed),
            decreases self.subscriptions@.len() - s,
        {
            let subscription = &self.subscriptions[s];
            let ghost view = views[s as int];
            let ghost earlier = needed;
            let mut far = false;
            let mut i: usize = 0;
            assert(view == subscription@);
            assert(earlier + interval_sources(view, 0) =~= earlier);
            while i < subscription.intervals.len()
                invariant
                    i <= subscription.intervals@.len(),
                    view == subscription@,
                    needed == earlier + interval_sources(view, i as int),
                    source_views(sources@) == each_once(needed),
                    far == exists|j: int|
                        0 <= j < i && (#[trigger] view.intervals[j]).millis() > 86_400_000,
                decreases subscription.intervals@.len() - i,
            {
                let interval = subscription.intervals[i];
                assert(interval == view.intervals[i as int]);
                if interval.as_millis() > 86_400_000 {
                    far = true;
                }
                if interval.as_millis() >= 60_000 {
                    let source = match interval.aggregation_base() {
                        Some(base) => base,
                        None => interval,
                    };
                    match source.binance_interval() {
                        Some(native) => {
                            let wish = KlineSource {
                                symbol: subscription.symbol.clone(),
                                canonical_interval: source.canonical(),
                                binance_interval: native,
                                interval: source,
                            };
                            assert(interval_source(view, interval) == Some(wish@));
                            proof {
                                each_once_push(needed, wish@);
                                needed = needed.push(wish@);
                            }
                            add_source(&mut sources, wish);
                        },
                        None => {},
                    }
                }
                i += 1;
                assert(needed =~= earlier + interval_sources(view, i as int));
            }
            let ghost half = needed;
            if subscription.resolved_source() == RealtimeSource::Kline1m {
                let minute = KlineSource {
                    symbol: subscription.symbol.clone(),
                    canonical_interval: "1".to_owned(),
                    binance_interval: "1m",
                    interval: Interval::Minutes(1),
                };
                assert(minute@ == minute_source(view.symbol));
                proof {
                    each_once_push(needed, minute@);
                    needed = needed.push(minute@);
                }
                add_source(&mut sources, minute);
                if far {
                    let day = KlineSource {
                        symbol: subscription.symbol.clone(),
                        canonical_interval: "D".to_owned(),
                        binance_interval: "1d",
                        interval: Interval::Days(1),
                    };
                    assert(day@ == day_source(view.symbol));
                    proof {
                        each_once_push(needed, day@);
                        needed = needed.push(day@);
                    }
                    add_source(&mut sources, day);
                }
            }
            proof {
                assert(far == beyond_a_day(view));
                assert(needed =~= half + seed_sources(view));
                assert(views.take(s + 1).drop_last() =~= views.take(s as int));
                assert(views.take(s + 1).last() == view);
            }
            s += 1;
        }
        assert(views.take(s as int) =~= views);
        sources
    }
}

/// An interval before number `i` of subscription number `s` leads to the row.
pub open spec fn wanted_until(
    subscriptions: Seq<SubscriptionView>,
    kind: TargetKind,
    s: int,
    i: int,
    row: Seq<Seq<char>>,
) -> bool {
    exists|t: int, j: int|
        (t < s || (t == s && j < i)) && #[trigger] leads_to(subscriptions, kind, t, j, row)
}

proof fn each_once_has(sources: Seq<SourceView>, source: SourceView)
    requires
        sources.contains(source),
    ensures
        has_series(each_once(sources), source),
    decreases sources.len(),
{
    let k = choose|k: int| 0 <= k < sources.len() && sources[k] == source;
    let earlier = each_once(sources.drop_last());
    if k < sources.len() - 1 {
        assert(sources.drop_last()[k] == source);
        each_once_has(sources.drop_last(), source);
        let i = choose|i: int|
            0 <= i < earlier.len() && (#[trigger] earlier[i]).symbol == source.symbol
                && earlier[i].canonical == source.canonical;
        assert(each_once(sources)[i] == earlier[i]);
    } else if !has_series(earlier, source) {
        assert(each_once(sources)[earlier.len() as int] == source);
    }
}

proof fn interval_source_is_listed(subscription: SubscriptionView, i: int, n: int)
    requires
        0 <= i < n <= subscription.intervals.len(),
        interval_source(subscription, subscription.intervals[i]) is Some,
    ensures
        interval_sources(subscription, n).contains(
            interval_source(subscription, subscription.intervals[i])->0,
        ),
    decreases n,
{
    let source = interval_source(subscription, subscription.intervals[i])->0;
    let list = interval_sources(subscription, n);
    let earlier = interval_sources(subscription, n - 1);
    if i < n - 1 {
        interval_source_is_listed(subscription, i, n - 1);
        let k = choose|k: int| 0 <= k < earlier.len() && earlier[k] == source;
        assert(list[k] == source);
    } else {
        assert(list[earlier.len() as int] == source);
    }
}

proof fn needed_of_one(subscriptions: Seq<SubscriptionView>, s: int, source: SourceView)
    requires
        0 <= s < subscriptions.len(),
        interval_sources(
            subscriptions[s],
            subscriptions[s].intervals.len() as int,
        ).contains(source),
    ensures
        needed_sources(subscriptions).contains(source),
    decreases subscriptions.len(),
{
    let last = subscriptions.last();
    let earlier = needed_sources(subscriptions.drop_last());
    let own = interval_sources(last, last.intervals.len() as int);
    let list = needed_sources(subscriptions);
    if s < subscriptions.len() - 1 {
        needed_of_one(subscriptions.drop_last(), s, source);
        let k = choose|k: int| 0 <= k < earlier.len() && earlier[k] == source;
        assert(list[k] == source);
    } else {
        let k = choose|k: int| 0 <= k < own.len() && own[k] == source;
        assert(list[earlier.len() + k] == source);
    }
}

/// The history has what the intervals need: for every interval of at least a
/// minute whose own or whose base's candles the exchange has, that native
/// series is fetched.
pub proof fn needed_series_are_fetched(subscriptions: Seq<SubscriptionView>, s: int, i: int)
    requires
        0 <= s < subscriptions.len(),
        0 <= i < subscriptions[s].intervals.len(),
        interval_source(subscriptions[s], subscriptions[s].intervals[i]) is Some,
    ensures
        has_series(
            each_once(needed_sources(subscriptions)),
            interval_source(subscriptions[s], subscriptions[s].intervals[i])->0,
        ),
{
    let source = interval_source(subscriptions[s], subscriptions[s].intervals[i])->0;
    interval_source_is_listed(subscriptions[s], i, subscriptions[s].intervals.len() as int);
    needed_of_one(subscriptions, s, source);
    each_once_has(needed_sources(subscriptions), source);
}

/// Every custom interval that is rolled up has its native base among the
/// series that are fetched.
pub proof fn aggregation_bases_are_fetched(
    subscriptions: Seq<SubscriptionView>,
    s: int,
    i: int,
    row: Seq<Seq<char>>,
)
    requires
        leads_to(subscriptions, TargetKind::Aggregation, s, i, row),
        subscriptions[s].intervals[i].supported(),
    ensures
        exists|k: int|
            0 <= k < each_once(needed_sources(subscriptions)).len() && (#[trigger] each_once(
                needed_sources(subscriptions),
            )[k]).symbol == row[0] && each_once(needed_sources(subscriptions))[k].canonical
                == row[1],
{
    let interval = subscriptions[s].intervals[i];
    crate::domain::interval::custom_intervals_have_a_native_base(interval);
    needed_series_are_fetched(subscriptions, s, i);
}

/// A subscription follows the trades: it says so, or it leaves the choice and
/// has no interval, or one that is shorter than a minute.
pub open spec fn follows_trades(subscription: SubscriptionView) -> bool {
    ||| subscription.source == RealtimeSource::Trade
    ||| subscription.source == RealtimeSource::Auto && subscription.intervals.len() == 0
    ||| subscription.source == RealtimeSource::Auto && exists|i: int|
        0 <= i < subscription.intervals.len() && (#[trigger] subscription.intervals[i]).millis()
            < 60_000
}

/// The stream is the one that the subscription follows: that of its trades, or
/// that of its minute candles.
pub open spec fn carries(stream: Seq<char>, subscription: SubscriptionView) -> bool {
    if follows_trades(subscription) {
        stream == lowercase(subscription.symbol) + "@aggTrade"@
    } else {
        stream == lowercase(subscription.symbol) + "@kline_1m"@
    }
}

/// Every subscription has its stream in the list.
pub proof fn subscriptions_have_their_stream(
    subscriptions: Seq<SubscriptionView>,
    list: Seq<String>,
    s: int,
)
    requires
        lists_streams(subscriptions, list),
        0 <= s < subscriptions.len(),
    ensures
        exists|k: int| 0 <= k < list.len() && carries((#[trigger] list[k])@, subscriptions[s]),
{
    let row = seq![stream_name(subscriptions[s])];
    assert(stream_wanted(subscriptions, row));
    assert(singles(list).contains(row));
    let k = choose|k: int| 0 <= k < singles(list).len() && singles(list)[k] == row;
    assert(seq![list[k]@][0] == row[0]);
    stream_follows_the_source(subscriptions[s]);
    assert(carries(list[k]@, subscriptions[s]));
}

/// Every stream in the list is that of a subscription.
pub proof fn streams_come_from_a_subscription(
    subscriptions: Seq<SubscriptionView>,
    list: Seq<String>,
    k: int,
)
    requires
        lists_streams(subscriptions, list),
        0 <= k < list.len(),
    ensures
        exists|s: int|
            0 <= s < subscriptions.len() && carries(list[k]@, #[trigger] subscriptions[s]),
{
    let row = seq![list[k]@];
    assert(singles(list)[k] == row);
    assert(singles(list).contains(row));
    assert(stream_wanted(subscriptions, row));
    let s = choose|s: int|
        0 <= s < subscriptions.len() && row == seq![stream_name(#[trigger] subscriptions[s])];
    assert(row[0] == seq![stream_name(subscriptions[s])][0]);
    stream_follows_the_source(subscriptions[s]);
    assert(carries(list[k]@, subscriptions[s]));
}

proof fn stream_follows_the_source(subscription: SubscriptionView)
    ensures
        follows_trades(subscription) <==> subscription.source_in_use() == RealtimeSource::Trade,
        !follows_trades(subscription) <==> subscription.source_in_use() == RealtimeSource::Kline1m,
{
}

/// The targets of a subscription's interval stand in the lists where they
/// belong: always among the configured ones; where trades are followed among
/// those of trades; where minute candles are, and the interval is longer, among
/// those of minutes; and where it is built from another, among the rolled up.
pub proof fn intervals_are_among_their_targets(
    subscriptions: Seq<SubscriptionView>,
    s: int,
    i: int,
    configured: Seq<Seq<Seq<char>>>,
    trades: Seq<Seq<Seq<char>>>,
    minutes: Seq<Seq<Seq<char>>>,
    rolled: Seq<Seq<Seq<char>>>,
)
    requires
        0 <= s < subscriptions.len(),
        0 <= i < subscriptions[s].intervals.len(),
        lists_wanted(subscriptions, TargetKind::Configured, configured),
        lists_wanted(subscriptions, TargetKind::Trade, trades),
        lists_wanted(subscriptions, TargetKind::Realtime, minutes),
        lists_wanted(subscriptions, TargetKind::Aggregation, rolled),
    ensures
        ({
            let symbol = subscriptions[s].symbol;
            let interval = subscriptions[s].intervals[i];
            &&& configured.contains(seq![symbol, interval.name()])
            &&& follows_trades(subscriptions[s]) ==> trades.contains(seq![symbol, interval.name()])
            &&& !follows_trades(subscriptions[s]) && interval.millis() > 60_000
                ==> minutes.contains(seq![symbol, "1"@, interval.name()])
            &&& interval.base() matches Some(base) ==> rolled.contains(
                seq![symbol, base.name(), interval.name()],
            )
        }),
{
    let subscription = subscriptions[s];
    let interval = subscription.intervals[i];
    stream_follows_the_source(subscription);
    let row = target_row(TargetKind::Configured, subscription, interval)->0;
    assert(leads_to(subscriptions, TargetKind::Configured, s, i, row));
    assert(wanted(subscriptions, TargetKind::Configured, row));
    if follows_trades(subscription) {
        let row = target_row(TargetKind::Trade, subscription, interval)->0;
        assert(leads_to(subscriptions, TargetKind::Trade, s, i, row));
        assert(wanted(subscriptions, TargetKind::Trade, row));
    } else if interval.millis() > 60_000 {
        let row = target_row(TargetKind::Realtime, subscription, interval)->0;
        assert(leads_to(subscriptions, TargetKind::Realtime, s, i, row));
        assert(wanted(subscriptions, TargetKind::Realtime, row));
    }
    if interval.base() is Some {
        let row = target_row(TargetKind::Aggregation, subscription, interval)->0;
        assert(leads_to(subscriptions, TargetKind::Aggregation, s, i, row));
        assert(wanted(subscriptions, TargetKind::Aggregation, row));
    }
}

/// Each target comes from a subscription and one of its intervals: it starts
/// with the symbol and ends with the interval's name. One of trades comes from
/// a subscription that follows them; one of minutes from one that does not, and
/// from an interval longer than a minute.
pub proof fn targets_come_from_a_subscription(
    subscriptions: Seq<SubscriptionView>,
    kind: TargetKind,
    list: Seq<Seq<Seq<char>>>,
    row: Seq<Seq<char>>,
) -> (found: (int, int))
    requires
        lists_wanted(subscriptions, kind, list),
        list.contains(row),
    ensures
        ({
            let subscription = subscriptions[found.0];
            let interval = subscription.intervals[found.1];
            &&& 0 <= found.0 < subscriptions.len()
            &&& 0 <= found.1 < subscription.intervals.len()
            &&& row[0] == subscription.symbol && row.last() == interval.name()
            &&& kind == TargetKind::Trade ==> follows_trades(subscription) && row.len() == 2
            &&& kind == TargetKind::Configured ==> row.len() == 2
            &&& kind == TargetKind::Realtime ==> !follows_trades(subscription) && interval.millis()
                > 60_000 && row.len() == 3 && row[1] == "1"@
            &&& kind == TargetKind::Aggregation ==> row.len() == 3 && (
            interval.base() matches Some(base) && row[1] == base.name())
        }),
{
    assert(wanted(subscriptions, kind, row));
    let (s, i) = choose|s: int, i: int| #[trigger] leads_to(subscriptions, kind, s, i, row);
    assert(leads_to(subscriptions, kind, s, i, row));
    stream_follows_the_source(subscriptions[s]);
    (s, i)
}

/// A series serves a subscription: it is of the symbol, and one of its intervals
/// of a minute or more is that series or is built from it; or the subscription
/// follows the minute candles, and the series is that of the minutes, or, where
/// an interval is longer than a day, that of the days.
pub open spec fn serves(subscription: SubscriptionView, source: SourceView) -> bool {
    &&& source.symbol == subscription.symbol
    &&& {
        ||| exists|i: int|
            0 <= i < subscription.intervals.len() && (#[trigger] subscription.intervals[i]).millis()
                >= 60_000 && (source.interval == subscription.intervals[i]
                || subscription.intervals[i].base() == Some(source.interval))
        ||| !follows_trades(subscription) && source.interval == Interval::Minutes(1)
        ||| !follows_trades(subscription) && source.interval == Interval::Days(1) && exists|i: int|
            0 <= i < subscription.intervals.len() && (#[trigger] subscription.intervals[i]).millis()
                > 86_400_000
    }
}

/// A series that can be fetched: it serves a subscription, and its names are
/// those of its interval, its own and the exchange's.
pub open spec fn fetchable(subscriptions: Seq<SubscriptionView>, source: SourceView) -> bool {
    &&& exists|s: int|
        0 <= s < subscriptions.len() && serves(#[trigger] subscriptions[s], source)
    &&& source.canonical == source.interval.name()
    &&& source.interval.native_name() == Some(source.native)
}

/// The series that are fetched are fetchable, and no two of them are one.
pub proof fn fetched_series_have_their_names(subscriptions: Seq<SubscriptionView>)
    ensures
        forall|k: int|
            0 <= k < each_once(needed_sources(subscriptions)).len() ==> fetchable(
                subscriptions,
                #[trigger] each_once(needed_sources(subscriptions))[k],
            ),
        forall|k: int, m: int|
            #![trigger
                each_once(needed_sources(subscriptions))[k],
                each_once(needed_sources(subscriptions))[m]]
            0 <= k < m < each_once(needed_sources(subscriptions)).len() ==> {
                let list = each_once(needed_sources(subscriptions));
                list[k].symbol != list[m].symbol || list[k].canonical != list[m].canonical
            },
{
    needed_are_fetchable(subscriptions);
    once_keeps(needed_sources(subscriptions));
    let all = needed_sources(subscriptions);
    let list = each_once(all);
    assert forall|k: int| 0 <= k < list.len() implies fetchable(
        subscriptions,
        #[trigger] list[k],
    ) by {
        assert(all.contains(list[k]));
        let m = choose|m: int| 0 <= m < all.len() && all[m] == list[k];
        assert(fetchable(subscriptions, all[m]));
    }
}

proof fn once_keeps(sources: Seq<SourceView>)
    ensures
        forall|k: int|
            0 <= k < each_once(sources).len() ==> sources.contains(#[trigger] each_once(sources)[k]),
        forall|k: int, m: int|
            #![trigger each_once(sources)[k], each_once(sources)[m]]
            0 <= k < m < each_once(sources).len() ==> each_once(sources)[k].symbol != each_once(
                sources,
            )[m].symbol || each_once(sources)[k].canonical != each_once(sources)[m].canonical,
    decreases sources.len(),
{
    if sources.len() > 0 {
        let fewer = sources.drop_last();
        once_keeps(fewer);
        let earlier = each_once(fewer);
        let list = each_once(sources);
        assert forall|k: int| 0 <= k < list.len() implies sources.contains(#[trigger] list[k]) by {
            if k < earlier.len() {
                assert(fewer.contains(earlier[k]));
                let m = choose|m: int| 0 <= m < fewer.len() && fewer[m] == earlier[k];
                assert(sources[m] == list[k]);
            } else {
                assert(sources[sources.len() - 1] == list[k]);
            }
        }
        assert forall|k: int, m: int|
            #![trigger list[k], list[m]]
            0 <= k < m < list.len() implies list[k].symbol != list[m].symbol || list[k].canonical
            != list[m].canonical by {
            assert(list[k] == earlier[k]);
            if m < earlier.len() {
                assert(list[m] == earlier[m]);
            } else {
                assert(!has_series(earlier, list[m]));
            }
        }
    }
}

proof fn needed_are_fetchable(subscriptions: Seq<SubscriptionView>)
    ensures
        forall|k: int|
            0 <= k < needed_sources(subscriptions).len() ==> fetchable(
                subscriptions,
                #[trigger] needed_sources(subscriptions)[k],
            ),
    decreases subscriptions.len(),
{
    if subscriptions.len() > 0 {
        let fewer = subscriptions.drop_last();
        needed_are_fetchable(fewer);
        let n = subscriptions.len() - 1;
        let last = subscriptions.last();
        assert(subscriptions[n] == last);
        let earlier = needed_sources(fewer);
        let own = interval_sources(last, last.intervals.len() as int);
        let seeds = seed_sources(last);
        own_are_fetchable(last, last.intervals.len() as int);
        minute_and_day_names();
        let all = needed_sources(subscriptions);
        assert forall|k: int| 0 <= k < all.len() implies fetchable(
            subscriptions,
            #[trigger] all[k],
        ) by {
            if k < earlier.len() {
                assert(all[k] == earlier[k]);
                let s = choose|s: int|
                    0 <= s < fewer.len() && serves(#[trigger] fewer[s], earlier[k]);
                assert(subscriptions[s] == fewer[s]);
            } else if k < earlier.len() + own.len() {
                assert(all[k] == own[k - earlier.len()]);
                assert(serves(subscriptions[n], all[k]));
            } else {
                assert(all[k] == seeds[k - earlier.len() - own.len()]);
                stream_follows_the_source(last);
                assert(serves(subscriptions[n], all[k]));
            }
        }
    }
}

proof fn minute_and_day_names()
    ensures
        Interval::Minutes(1).name() == "1"@,
        Interval::Days(1).name() == "D"@,
{
    reveal_strlit("1");
    reveal_strlit("D");
    assert(crate::text::decimal(1) =~= seq!['1']) by {
        assert(crate::text::digit_char(1) == '1');
    }
    assert("1"@ =~= seq!['1']);
    assert("D"@ =~= seq!['D']);
}

proof fn own_are_fetchable(subscription: SubscriptionView, n: int)
    requires
        n <= subscription.intervals.len(),
    ensures
        forall|k: int|
            #![trigger interval_sources(subscription, n)[k]]
            0 <= k < interval_sources(subscription, n).len() ==> {
                let source = interval_sources(subscription, n)[k];
                &&& serves(subscription, source)
                &&& source.canonical == source.interval.name()
                &&& source.interval.native_name() == Some(source.native)
            },
    decreases n,
{
    if n > 0 {
        own_are_fetchable(subscription, n - 1);
        let interval = subscription.intervals[n - 1];
        if let Some(source) = interval_source(subscription, interval) {
            assert(serves(subscription, source));
        }
    }
}

/// A subscription that follows the minute candles has the minutes fetched, and
/// the days too where an interval is longer than a day.
pub proof fn minutes_and_days_are_fetched(subscriptions: Seq<SubscriptionView>, s: int)
    requires
        0 <= s < subscriptions.len(),
        !follows_trades(subscriptions[s]),
    ensures
        ({
            let list = each_once(needed_sources(subscriptions));
            let symbol = subscriptions[s].symbol;
            &&& exists|k: int|
                0 <= k < list.len() && (#[trigger] list[k]).symbol == symbol && list[k].canonical
                    == Interval::Minutes(1).name()
            &&& (exists|i: int|
                0 <= i < subscriptions[s].intervals.len() && (
                #[trigger] subscriptions[s].intervals[i]).millis() > 86_400_000) ==> exists|k: int|
                0 <= k < list.len() && (#[trigger] list[k]).symbol == symbol && list[k].canonical
                    == Interval::Days(1).name()
        }),
{
    minute_and_day_names();
    stream_follows_the_source(subscriptions[s]);
    let all = needed_sources(subscriptions);
    let seeds = seed_sources(subscriptions[s]);
    let minute = minute_source(subscriptions[s].symbol);
    let day = day_source(subscriptions[s].symbol);
    assert(seeds[0] == minute);
    assert(seeds.contains(minute));
    seeds_of_one(subscriptions, s, minute);
    each_once_has(all, minute);
    if beyond_a_day(subscriptions[s]) {
        assert(seeds[1] == day);
        assert(seeds.contains(day));
        seeds_of_one(subscriptions, s, day);
        each_once_has(all, day);
    }
}

proof fn seeds_of_one(subscriptions: Seq<SubscriptionView>, s: int, source: SourceView)
    requires
        0 <= s < subscriptions.len(),
        seed_sources(subscriptions[s]).contains(source),
    ensures
        needed_sources(subscriptions).contains(source),
    decreases subscriptions.len(),
{
    let last = subscriptions.last();
    let fewer = subscriptions.drop_last();
    let earlier = needed_sources(fewer);
    let own = interval_sources(last, last.intervals.len() as int);
    let seeds = seed_sources(last);
    let all = needed_sources(subscriptions);
    if s < subscriptions.len() - 1 {
        assert(fewer[s] == subscriptions[s]);
        seeds_of_one(fewer, s, source);
        let k = choose|k: int| 0 <= k < earlier.len() && earlier[k] == source;
        assert(all[k] == source);
    } else {
        let k = choose|k: int| 0 <= k < seeds.len() && seeds[k] == source;
        assert(all[earlier.len() + own.len() + k] == source);
    }
}

/// The interval can be fetched, or its base can: so it is in the list, under
/// the exchange's interval that it has or is built from. Intervals shorter than
/// a minute are not fetched.
pub proof fn intervals_of_a_minute_are_fetched(
    subscriptions: Seq<SubscriptionView>,
    s: int,
    i: int,
)
    requires
        0 <= s < subscriptions.len(),
        0 <= i < subscriptions[s].intervals.len(),
        subscriptions[s].intervals[i].supported(),
        subscriptions[s].intervals[i].millis() >= 60_000,
    ensures
        ({
            let interval = subscriptions[s].intervals[i];
            let list = each_once(needed_sources(subscriptions));
            exists|k: int|
                0 <= k < list.len() && (#[trigger] list[k]).symbol == subscriptions[s].symbol
                    && list[k].canonical == if interval.native_name() is Some {
                    interval.name()
                } else {
                    interval.base()->0.name()
                }
        }),
{
    let interval = subscriptions[s].intervals[i];
    if interval.native_name() is None {
        crate::domain::interval::custom_intervals_have_a_native_base(interval);
    }
    needed_series_are_fetched(subscriptions, s, i);
}

/// A plan has the subscriptions that have a symbol and an interval, in their
/// order, and no others.
pub proof fn plans_leave_out_the_empty(
    subscriptions: Seq<SubscriptionView>,
    subscription: SubscriptionView,
)
    ensures
        usable(subscriptions).contains(subscription) <==> subscriptions.contains(subscription)
            && subscription.symbol.len() > 0 && subscription.intervals.len() > 0,
{
    crate::series::filter_keeps(
        subscriptions,
        |s: SubscriptionView| s.symbol.len() > 0 && s.intervals.len() > 0,
    );
}

/// A plan for some symbols follows each of them that is not empty, without the
/// white space around it and in capitals, with all the intervals.
pub proof fn plans_follow_each_symbol(
    symbols: Vec<String>,
    intervals: Vec<Interval>,
    plan: SubscriptionPlan,
    i: int,
)
    requires
        call_ensures(SubscriptionPlan::new, (symbols, intervals), plan),
        0 <= i < symbols@.len(),
        intervals@.len() > 0,
    ensures
        ({
            let symbol = crate::text::uppercase(crate::text::trimmed(symbols@[i]@));
            symbol.len() > 0 ==> plan@.contains(
                SubscriptionView {
                    symbol,
                    intervals: intervals@,
                    source: RealtimeSource::Auto,
                },
            )
        }),
        forall|k: int|
            0 <= k < plan@.len() ==> (#[trigger] plan@[k]).symbol.len() > 0 && plan@[k].intervals
                == intervals@,
{
    let all = symbols@.map_values(
        |symbol: String|
            SubscriptionView {
                symbol: crate::config::settled(symbol@),
                intervals: intervals@,
                source: RealtimeSource::Auto,
            },
    );
    assert(all.contains(all[i]));
    plans_leave_out_the_empty(all, all[i]);
    assert forall|k: int| 0 <= k < plan@.len() implies (#[trigger] plan@[k]).symbol.len() > 0
        && plan@[k].intervals == intervals@ by {
        plans_leave_out_the_empty(all, plan@[k]);
        assert(usable(all).contains(plan@[k]));
        let m = choose|m: int| 0 <= m < all.len() && all[m] == plan@[k];
    }
}

} // verus!
