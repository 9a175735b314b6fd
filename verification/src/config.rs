//! The configuration: which symbols are followed, at which intervals and from
//! which stream.

use crate::domain::interval::{parsed_interval, Interval};
use crate::text::{chars_of, same_text, string_of, to_upper, trim, trimmed, uppercase};
use vstd::prelude::*;
use vstd::string::*;

verus! {

/// Where the live candles of a symbol come from.
#[derive(Debug, Clone, Copy, PartialEq, Eq, Structural)]
pub enum RealtimeSource {
    Auto,
    Trade,
    Kline1m,
}

impl Default for RealtimeSource {
    fn default() -> (r: Self)
        ensures
            r == RealtimeSource::Auto,
    {
        RealtimeSource::Auto
    }
}

impl RealtimeSource {
    pub open spec fn text(self) -> Seq<char> {
        match self {
            RealtimeSource::Auto => "auto"@,
            RealtimeSource::Trade => "trade"@,
            RealtimeSource::Kline1m => "kline_1m"@,
        }
    }

    /// The name in the configuration.
    pub fn name(&self) -> (r: &'static str)
        ensures
            r@ == self.text(),
    {
        match *self {
            RealtimeSource::Auto => "auto",
            RealtimeSource::Trade => "trade",
            RealtimeSource::Kline1m => "kline_1m",
        }
    }

    /// The source of that name.
    pub fn from_name(name: &str) -> (r: Option<Self>)
        ensures
            match r {
                Some(source) => source.text() == name@,
                None => forall|source: RealtimeSource| (#[trigger] source.text()) != name@,
            },
    {
        if same_text(name, "auto") {
            Some(RealtimeSource::Auto)
        } else if same_text(name, "trade") {
            Some(RealtimeSource::Trade)
        } else if same_text(name, "kline_1m") {
            Some(RealtimeSource::Kline1m)
        } else {
            None
        }
    }
}

/// The intervals at which one symbol is followed.
#[derive(Debug, PartialEq, Eq)]
pub struct SymbolSubscription {
    pub symbol: String,
    pub intervals: Vec<Interval>,
    pub source: RealtimeSource,
}

/// A symbol as it is kept: without white space around it, in upper case.
pub open spec fn settled(symbol: Seq<char>) -> Seq<char> {
    uppercase(trimmed(symbol))
}

fn settle(symbol: &str) -> (r: String)
    ensures
        r@ == settled(symbol@),
{
    let t = string_of(&trim(&chars_of(symbol)));
    to_upper(t.as_str())
}

impl Clone for SymbolSubscription {
    fn clone(&self) -> (r: Self)
        ensures
            r@ == self@,
    {
        SymbolSubscription {
            symbol: self.symbol.clone(),
            intervals: copy_intervals(&self.intervals),
            source: self.source,
        }
    }
}

pub(crate) fn copy_intervals(intervals: &Vec<Interval>) -> (r: Vec<Interval>)
    ensures
        r@ == intervals@,
{
    let mut out: Vec<Interval> = Vec::new();
    let mut i: usize = 0;
    while i < intervals.len()
        invariant
            i <= intervals@.len(),
            out@ == intervals@.take(i as int),
        decreases intervals@.len() - i,
    {
        out.push(intervals[i]);
        i += 1;
        assert(out@ =~= intervals@.take(i as int));
    }
    assert(out@ =~= intervals@);
    out
}

/// A subscription as a value.
pub struct SubscriptionView {
    pub symbol: Seq<char>,
    pub intervals: Seq<Interval>,
    pub source: RealtimeSource,
}

impl SubscriptionView {
    /// No interval is shorter than a minute, and there is one.
    pub open spec fn minutes_suffice(self) -> bool {
        &&& self.intervals.len() > 0
        &&& forall|i: int|
            0 <= i < self.intervals.len() ==> (#[trigger] self.intervals[i]).millis() >= 60_000
    }

    /// The source after `Auto` has been decided: one-minute candles suffice
    /// where no interval is shorter than a minute.
    pub open spec fn source_in_use(self) -> RealtimeSource {
        match self.source {
            RealtimeSource::Auto => if self.minutes_suffice() {
                RealtimeSource::Kline1m
            } else {
                RealtimeSource::Trade
            },
            explicit => explicit,
        }
    }
}

impl SymbolSubscription {
    pub open spec fn view(self) -> SubscriptionView {
        SubscriptionView {
            symbol: self.symbol@,
            intervals: self.intervals@,
            source: self.source,
        }
    }

    pub fn new(symbol: &str, intervals: Vec<Interval>, source: RealtimeSource) -> (r: Self)
        ensures
            r.symbol@ == settled(symbol@),
            r.intervals == intervals,
            r.source == source,
    {
        SymbolSubscription { symbol: settle(symbol), intervals, source }
    }

    pub fn resolved_source(&self) -> (r: RealtimeSource)
        ensures
            r == self@.source_in_use(),
            r != RealtimeSource::Auto,
    {
        match self.source {
            RealtimeSource::Auto => {
                let mut i: usize = 0;
                while i < self.intervals.len()
                    invariant
                        i <= self.intervals@.len(),
                        self.source == RealtimeSource::Auto,
                        forall|j: int|
                            0 <= j < i ==> (#[trigger] self.intervals@[j]).millis() >= 60_000,
                    decreases self.intervals@.len() - i,
                {
                    if self.intervals[i].as_millis() < 60_000 {
                        return RealtimeSource::Trade;
                    }
                    i += 1;
                }
                if self.intervals.len() > 0 {
                    RealtimeSource::Kline1m
                } else {
                    RealtimeSource::Trade
                }
            },
            explicit => explicit,
        }
    }
}

#[derive(Debug, PartialEq, Eq)]
pub enum ConfigError {
    Read { path: String, message: String },
    Toml(String),
    EmptySymbol,
    EmptyIntervals(String),
    InvalidInterval { symbol: String, interval: String },
    DuplicateSymbol(String),
    KlineWithSubMinute { symbol: String, interval: String },
}

impl ConfigError {
    pub open spec fn text(self) -> Seq<char> {
        match self {
            ConfigError::Read { path, message } => "failed to read "@ + path@ + ": "@ + message@,
            ConfigError::Toml(message) => "invalid TOML configuration: "@ + message@,
            ConfigError::EmptySymbol => "symbol cannot be empty"@,
            ConfigError::EmptyIntervals(symbol) => "symbol "@ + symbol@
                + " must configure at least one interval"@,
            ConfigError::InvalidInterval { symbol, interval } => "invalid interval for "@ + symbol@
                + ": "@ + interval@,
            ConfigError::DuplicateSymbol(symbol) => "duplicate symbol in configuration: "@
                + symbol@,
            ConfigError::KlineWithSubMinute { symbol, interval } =>
                "kline_1m source cannot build sub-minute interval "@ + interval@ + " for "@
                + symbol@,
        }
    }

    pub fn message(&self) -> (r: String)
        ensures
            r@ == self.text(),
    {
        match self {
            ConfigError::Read { path, message } => "failed to read ".to_owned().concat(
                path.as_str(),
            ).concat(": ").concat(message.as_str()),
            ConfigError::Toml(message) => "invalid TOML configuration: ".to_owned().concat(
                message.as_str(),
            ),
            ConfigError::EmptySymbol => "symbol cannot be empty".to_owned(),
            ConfigError::EmptyIntervals(symbol) => "symbol ".to_owned().concat(
                symbol.as_str(),
            ).concat(" must configure at least one interval"),
            ConfigError::InvalidInterval { symbol, interval } =>
                "invalid interval for ".to_owned().concat(symbol.as_str()).concat(": ").concat(
                interval.as_str(),
            ),
            ConfigError::DuplicateSymbol(symbol) =>
                "duplicate symbol in configuration: ".to_owned().concat(symbol.as_str()),
            ConfigError::KlineWithSubMinute { symbol, interval } =>
                "kline_1m source cannot build sub-minute interval ".to_owned().concat(
                interval.as_str(),
            ).concat(" for ").concat(symbol.as_str()),
        }
    }
}

/// One symbol as the configuration file has it.
#[derive(Debug, PartialEq, Eq)]
pub struct RawSymbolSubscription {
    pub symbol: String,
    pub intervals: Vec<String>,
    pub source: RealtimeSource,
}

/// The configuration file.
#[derive(Debug, PartialEq, Eq)]
pub struct FileConfig {
    pub bind_addr: String,
    pub database_url: String,
    pub retention_bars: u32,
    pub sync_on_start: bool,
    pub sync_lookback_bars: u32,
    pub symbols: Vec<RawSymbolSubscription>,
    pub flush_interval_secs: u64,
    pub flush_max_rows: usize,
    pub log_dir: String,
    pub log_level: String,
}

/// The configuration in force.
#[derive(Debug)]
pub struct AppConfig {
    pub database_url: String,
    pub bind_addr: String,
    pub subscriptions: Vec<SymbolSubscription>,
    pub retention_bars: u32,
    pub sync_on_start: bool,
    pub sync_lookback_bars: u32,
    pub realtime_flush_interval_secs: u64,
    pub realtime_flush_max_rows: usize,
    pub log_dir: String,
    pub log_level: String,
}

/// The intervals that the texts name.
pub open spec fn named_intervals(names: Seq<String>) -> Seq<Interval> {
    names.map_values(|name: String| parsed_interval(name@)->0)
}

/// Each interval once, where it first stands.
pub open spec fn distinct(intervals: Seq<Interval>) -> Seq<Interval>
    decreases intervals.len(),
{
    if intervals.len() == 0 {
        Seq::empty()
    } else {
        let earlier = distinct(intervals.drop_last());
        if earlier.contains(intervals.last()) {
            earlier
        } else {
            earlier.push(intervals.last())
        }
    }
}

pub open spec fn all_named(names: Seq<String>) -> bool {
    forall|i: int| 0 <= i < names.len() ==> parsed_interval((#[trigger] names[i])@) is Some
}

/// The symbol is there, for the first time, with at least one interval.
pub open spec fn symbol_stands(raws: Seq<RawSymbolSubscription>, i: int) -> bool {
    &&& settled(raws[i].symbol@).len() > 0
    &&& !symbol_taken(raws, i)
    &&& raws[i].intervals@.len() > 0
}

/// The symbol was configured before.
pub open spec fn symbol_taken(raws: Seq<RawSymbolSubscription>, i: int) -> bool {
    exists|j: int| 0 <= j < i && settled((#[trigger] raws[j]).symbol@) == settled(raws[i].symbol@)
}

/// Name number `k` is the first that names no interval.
pub open spec fn first_unnamed(names: Seq<String>, k: int) -> bool {
    &&& 0 <= k < names.len()
    &&& parsed_interval(names[k]@) is None
    &&& forall|j: int| 0 <= j < k ==> parsed_interval((#[trigger] names[j])@) is Some
}

/// Name number `k` is the first of an interval below a minute.
pub open spec fn first_sub_minute(names: Seq<String>, k: int) -> bool {
    &&& 0 <= k < names.len()
    &&& named_intervals(names)[k].millis() < 60_000
    &&& forall|j: int| 0 <= j < k ==> (#[trigger] named_intervals(names)[j]).millis() >= 60_000
}

/// Entry number `i` is refused with this error.
pub open spec fn refused(raws: Seq<RawSymbolSubscription>, i: int, error: ConfigError) -> bool {
    let raw = raws[i];
    let symbol = settled(raw.symbol@);
    match error {
        ConfigError::EmptySymbol => symbol.len() == 0,
        ConfigError::DuplicateSymbol(s) => s@ == symbol && symbol.len() > 0 && symbol_taken(
            raws,
            i,
        ),
        ConfigError::EmptyIntervals(s) => s@ == symbol && symbol.len() > 0 && !symbol_taken(raws, i)
            && raw.intervals@.len() == 0,
        ConfigError::InvalidInterval { symbol: s, interval } => {
            &&& s@ == symbol
            &&& symbol_stands(raws, i)
            &&& exists|k: int| #[trigger]
                first_unnamed(raw.intervals@, k) && interval@ == raw.intervals@[k]@
        },
        ConfigError::KlineWithSubMinute { symbol: s, interval } => {
            &&& s@ == symbol
            &&& symbol_stands(raws, i)
            &&& all_named(raw.intervals@)
            &&& raw.source == RealtimeSource::Kline1m
            &&& exists|k: int| #[trigger]
                first_sub_minute(raw.intervals@, k) && interval@ == named_intervals(
                    raw.intervals@,
                )[k].name()
        },
        _ => false,
    }
}

/// Entry number `i` is taken: nothing speaks against it.
pub open spec fn admitted(raws: Seq<RawSymbolSubscription>, i: int) -> bool {
    &&& symbol_stands(raws, i)
    &&& all_named(raws[i].intervals@)
    &&& raws[i].source == RealtimeSource::Kline1m ==> forall|k: int|
        0 <= k < raws[i].intervals@.len() ==> (#[trigger] named_intervals(
            raws[i].intervals@,
        )[k]).millis() >= 60_000
}

/// What an entry becomes.
pub open spec fn subscribed(raw: RawSymbolSubscription, subscription: SymbolSubscription) -> bool {
    &&& subscription.symbol@ == settled(raw.symbol@)
    &&& subscription.intervals@ == distinct(named_intervals(raw.intervals@))
    &&& subscription.source == raw.source
}

fn has_interval(intervals: &Vec<Interval>, interval: Interval) -> (r: bool)
    ensures
        r == intervals@.contains(interval),
{
    let mut i: usize = 0;
    while i < intervals.len()
        invariant
            i <= intervals@.len(),
            forall|j: int| 0 <= j < i ==> intervals@[j] != interval,
        decreases intervals@.len() - i,
    {
        if intervals[i] == interval {
            return true;
        }
        i += 1;
    }
    false
}

/// Reads the interval names of one symbol. The result is the number of the
/// first that names none, or the intervals as they stand and each once.
fn parse_intervals(names: &Vec<String>) -> (r: Result<(Vec<Interval>, Vec<Interval>), usize>)
    ensures
        match r {
            Ok(found) => {
                &&& all_named(names@)
                &&& found.0@ == named_intervals(names@)
                &&& found.1@ == distinct(named_intervals(names@))
            },
            Err(k) => first_unnamed(names@, k as int),
        },
{
    let mut all: Vec<Interval> = Vec::new();
    let mut once: Vec<Interval> = Vec::new();
    let mut i: usize = 0;
    while i < names.len()
        invariant
            i <= names@.len(),
            forall|j: int| 0 <= j < i ==> parsed_interval((#[trigger] names@[j])@) is Some,
            all@ == named_intervals(names@.take(i as int)),
            once@ == distinct(all@),
        decreases names@.len() - i,
    {
        match Interval::parse(names[i].as_str()) {
            Ok(interval) => {
                let ghost before = all@;
                all.push(interval);
                assert(all@.drop_last() =~= before);
                if !has_interval(&once, interval) {
                    once.push(interval);
                }
            },
            Err(_) => {
                return Err(i);
            },
        }
        i += 1;
        assert(all@ =~= named_intervals(names@.take(i as int)));
    }
    assert(names@.take(names@.len() as int) =~= names@);
    Ok((all, once))
}

fn taken_before(raws: &Vec<RawSymbolSubscription>, i: usize, symbol: &str) -> (r: bool)
    requires
        i < raws@.len(),
        symbol@ == settled(raws@[i as int].symbol@),
    ensures
        r == symbol_taken(raws@, i as int),
{
    let mut j: usize = 0;
    while j < i
        invariant
            j <= i < raws@.len(),
            symbol@ == settled(raws@[i as int].symbol@),
            forall|k: int|
                0 <= k < j ==> settled((#[trigger] raws@[k]).symbol@) != settled(
                    raws@[i as int].symbol@,
                ),
        decreases i - j,
    {
        let other = settle(raws[j].symbol.as_str());
        if same_text(other.as_str(), symbol) {
            return true;
        }
        j += 1;
    }
    false
}

/// Turns the entries of the configuration file into subscriptions. The first
/// entry that cannot stand decides the error.
pub fn parse_subscriptions(raw_subscriptions: &Vec<RawSymbolSubscription>) -> (r: Result<
    Vec<SymbolSubscription>,
    ConfigError,
>)
    ensures
        match r {
            Ok(subscriptions) => {
                &&& subscriptions@.len() == raw_subscriptions@.len()
                &&& forall|i: int|
                    0 <= i < raw_subscriptions@.len() ==> #[trigger] admitted(raw_subscriptions@, i)
                        && subscribed(raw_subscriptions@[i], subscriptions@[i])
            },
            Err(error) => exists|i: int|
                0 <= i < raw_subscriptions@.len() && #[trigger] refused(
                    raw_subscriptions@,
                    i,
                    error,
                ) && forall|j: int| 0 <= j < i ==> #[trigger] admitted(raw_subscriptions@, j),
        },
{
    let ghost raws = raw_subscriptions@;
    let mut subscriptions: Vec<SymbolSubscription> = Vec::new();
    let mut i: usize = 0;
    while i < raw_subscriptions.len()
        invariant
            i <= raws.len(),
            raws == raw_subscriptions@,
            subscriptions@.len() == i,
            forall|j: int|
                0 <= j < i ==> #[trigger] admitted(raws, j) && subscribed(
                    raws[j],
                    subscriptions@[j],
                ),
        decreases raws.len() - i,
    {
        let raw = &raw_subscriptions[i];
        let symbol = settle(raw.symbol.as_str());
        if symbol.as_str().unicode_len() == 0 {
            assert(refused(raws, i as int, ConfigError::EmptySymbol));
            return Err(ConfigError::EmptySymbol);
        }
        if taken_before(raw_subscriptions, i, symbol.as_str()) {
            let error = ConfigError::DuplicateSymbol(symbol);
            assert(refused(raws, i as int, error));
            return Err(error);
        }
        if raw.intervals.len() == 0 {
            let error = ConfigError::EmptyIntervals(symbol);
            assert(refused(raws, i as int, error));
            return Err(error);
        }
        let (all, once) = match parse_intervals(&raw.intervals) {
            Ok(found) => found,
            Err(k) => {
                let error = ConfigError::InvalidInterval {
                    symbol,
                    interval: raw.intervals[k].clone(),
                };
                assert(first_unnamed(raw.intervals@, k as int));
                assert(refused(raws, i as int, error));
                return Err(error);
            },
        };
        if raw.source == RealtimeSource::Kline1m {
            let mut k: usize = 0;
            while k < all.len()
                invariant
                    k <= all@.len(),
                    i < raws.len(),
                    raws == raw_subscriptions@,
                    *raw == raws[i as int],
                    symbol@ == settled(raw.symbol@),
                    raw.source == RealtimeSource::Kline1m,
                    all@ == named_intervals(raw.intervals@),
                    symbol_stands(raws, i as int),
                    all_named(raw.intervals@),
                    forall|j: int| 0 <= j < i ==> #[trigger] admitted(raws, j),
                    forall|j: int|
                        0 <= j < k ==> (#[trigger] named_intervals(raw.intervals@)[j]).millis()
                            >= 60_000,
                decreases all@.len() - k,
            {
                if all[k].as_millis() < 60_000 {
                    let error = ConfigError::KlineWithSubMinute {
                        symbol,
                        interval: all[k].canonical(),
                    };
                    assert(first_sub_minute(raw.intervals@, k as int));
                    assert(refused(raws, i as int, error));
                    return Err(error);
                }
                k += 1;
            }
        }
        assert(admitted(raws, i as int));
        subscriptions.push(
            SymbolSubscription { symbol, intervals: once, source: raw.source },
        );
        i += 1;
    }
    Ok(subscriptions)
}

impl AppConfig {
    /// The configuration that a file gives.
    pub fn from_file(file: FileConfig) -> (r: Result<Self, ConfigError>)
        ensures
            match r {
                Ok(config) => {
                    &&& config.subscriptions@.len() == file.symbols@.len()
                    &&& forall|i: int|
                        0 <= i < file.symbols@.len() ==> #[trigger] admitted(file.symbols@, i)
                            && subscribed(file.symbols@[i], config.subscriptions@[i])
                    &&& config.database_url == file.database_url
                    &&& config.bind_addr == file.bind_addr
                    &&& config.retention_bars == file.retention_bars
                    &&& config.sync_on_start == file.sync_on_start
                    &&& config.sync_lookback_bars == file.sync_lookback_bars
                    &&& config.realtime_flush_interval_secs == file.flush_interval_secs
                    &&& config.realtime_flush_max_rows == file.flush_max_rows
                    &&& config.log_dir == file.log_dir
                    &&& config.log_level == file.log_level
                },
                Err(error) => exists|i: int|
                    0 <= i < file.symbols@.len() && #[trigger] refused(file.symbols@, i, error)
                        && forall|j: int| 0 <= j < i ==> #[trigger] admitted(file.symbols@, j),
            },
    {
        let subscriptions = match parse_subscriptions(&file.symbols) {
            Ok(subscriptions) => subscriptions,
            Err(error) => {
                return Err(error);
            },
        };
        Ok(
            AppConfig {
                database_url: file.database_url,
                bind_addr: file.bind_addr,
                subscriptions,
                retention_bars: file.retention_bars,
                sync_on_start: file.sync_on_start,
                sync_lookback_bars: file.sync_lookback_bars,
                realtime_flush_interval_secs: file.flush_interval_secs,
                realtime_flush_max_rows: file.flush_max_rows,
                log_dir: file.log_dir,
                log_level: file.log_level,
            },
        )
    }
}

/// No entry is both taken and refused, so an error tells why the entries
/// cannot stand.
pub proof fn admitted_entries_are_not_refused(
    raws: Seq<RawSymbolSubscription>,
    i: int,
    error: ConfigError,
)
    requires
        admitted(raws, i),
    ensures
        !refused(raws, i, error),
{
}

/// No two of the subscriptions that entries become are of one symbol.
pub proof fn subscribed_symbols_are_distinct(
    raws: Seq<RawSymbolSubscription>,
    subscriptions: Seq<SymbolSubscription>,
)
    requires
        subscriptions.len() == raws.len(),
        forall|i: int|
            0 <= i < raws.len() ==> #[trigger] admitted(raws, i) && subscribed(
                raws[i],
                subscriptions[i],
            ),
    ensures
        forall|i: int, j: int|
            0 <= i < j < subscriptions.len() ==> (#[trigger] subscriptions[i]).symbol@ != (
            #[trigger] subscriptions[j]).symbol@,
        forall|i: int|
            0 <= i < subscriptions.len() ==> (#[trigger] subscriptions[i]).symbol@.len() > 0,
{
    assert forall|i: int, j: int| 0 <= i < j < subscriptions.len() implies (
    #[trigger] subscriptions[i]).symbol@ != (#[trigger] subscriptions[j]).symbol@ by {
        assert(admitted(raws, i) && admitted(raws, j));
        assert(settled(raws[i].symbol@) != settled(raws[j].symbol@));
    }
    assert forall|i: int| 0 <= i < subscriptions.len() implies (
    #[trigger] subscriptions[i]).symbol@.len() > 0 by {
        assert(admitted(raws, i));
    }
}

proof fn distinct_has_the_same(intervals: Seq<Interval>)
    ensures
        forall|interval: Interval|
            distinct(intervals).contains(interval) <==> intervals.contains(interval),
        distinct(intervals).no_duplicates(),
    decreases intervals.len(),
{
    if intervals.len() > 0 {
        distinct_has_the_same(intervals.drop_last());
        let earlier = distinct(intervals.drop_last());
        let last = intervals.last();
        assert forall|interval: Interval|
            distinct(intervals).contains(interval) <==> intervals.contains(interval) by {
            if intervals.contains(interval) {
                let k = choose|k: int| 0 <= k < intervals.len() && intervals[k] == interval;
                if k < intervals.len() - 1 {
                    assert(intervals.drop_last()[k] == interval);
                    assert(intervals.drop_last().contains(interval));
                    assert(earlier.contains(interval));
                    let m = choose|m: int| 0 <= m < earlier.len() && earlier[m] == interval;
                    assert(distinct(intervals)[m] == interval);
                } else if !earlier.contains(last) {
                    assert(distinct(intervals)[earlier.len() as int] == interval);
                }
            }
            if distinct(intervals).contains(interval) {
                if earlier.contains(interval) {
                    assert(intervals.drop_last().contains(interval));
                    let k = choose|k: int|
                        0 <= k < intervals.drop_last().len() && intervals.drop_last()[k]
                            == interval;
                    assert(intervals[k] == interval);
                } else {
                    assert(intervals[intervals.len() - 1] == last);
                    let m = choose|m: int|
                        0 <= m < distinct(intervals).len() && distinct(intervals)[m] == interval;
                    if m < earlier.len() {
                        assert(earlier[m] == interval);
                    }
                }
            }
        }
    }
}

/// Naming an interval twice changes nothing: a subscription has every interval
/// that its entry names, and each once.
pub proof fn subscriptions_have_each_interval_once(
    raw: RawSymbolSubscription,
    subscription: SymbolSubscription,
)
    requires
        subscribed(raw, subscription),
    ensures
        subscription.intervals@.no_duplicates(),
        forall|interval: Interval|
            subscription.intervals@.contains(interval) <==> named_intervals(
                raw.intervals@,
            ).contains(interval),
{
    distinct_has_the_same(named_intervals(raw.intervals@));
}

/// A subscription that leaves the choice follows the minute candles exactly if
/// it has an interval and none that is shorter than a minute; one that does not
/// leave it follows what it says.
pub proof fn the_shortest_interval_decides(subscription: SubscriptionView)
    ensures
        subscription.source == RealtimeSource::Auto ==> {
            &&& subscription.source_in_use() == RealtimeSource::Kline1m
                <==> subscription.intervals.len() > 0 && forall|interval: Interval| #[trigger]
                subscription.intervals.contains(interval) ==> interval.millis() >= 60_000
            &&& subscription.source_in_use() == RealtimeSource::Trade
                <==> subscription.intervals.len() == 0 || exists|interval: Interval| #[trigger]
                subscription.intervals.contains(interval) && interval.millis() < 60_000
        },
        subscription.source != RealtimeSource::Auto ==> subscription.source_in_use()
            == subscription.source,
{
    let intervals = subscription.intervals;
    if subscription.minutes_suffice() {
        assert forall|interval: Interval| #[trigger] intervals.contains(
            interval,
        ) implies interval.millis() >= 60_000 by {
            let i = choose|i: int| 0 <= i < intervals.len() && intervals[i] == interval;
            assert(intervals[i].millis() >= 60_000);
        }
    } else if intervals.len() > 0 {
        let i = choose|i: int|
            0 <= i < intervals.len() && (#[trigger] intervals[i]).millis() < 60_000;
        assert(intervals.contains(intervals[i]));
    }
}

/// The intervals keep the order in which they are first named: what a list
/// gives stays at the front of what a longer list gives.
pub proof fn intervals_keep_their_order(intervals: Seq<Interval>, more: Seq<Interval>)
    ensures
        distinct(intervals).is_prefix_of(distinct(intervals + more)),
    decreases more.len(),
{
    if more.len() == 0 {
        assert(intervals + more =~= intervals);
    } else {
        intervals_keep_their_order(intervals, more.drop_last());
        assert((intervals + more).drop_last() =~= intervals + more.drop_last());
        let a = distinct(intervals);
        let b = distinct(intervals + more.drop_last());
        let c = distinct(intervals + more);
        assert(b.is_prefix_of(c));
        assert(a =~= c.subrange(0, a.len() as int)) by {
            assert(a =~= b.subrange(0, a.len() as int));
            assert(b =~= c.subrange(0, b.len() as int));
            assert forall|i: int| 0 <= i < a.len() implies a[i] == c[i] by {
                assert(a[i] == b.subrange(0, a.len() as int)[i]);
                assert(b[i] == c.subrange(0, b.len() as int)[i]);
            }
        }
    }
}

/// An entry is admitted exactly if it has a symbol that no entry before it has,
/// at least one interval, only intervals that are supported, and, where it is
/// to follow minute candles, none that is shorter than a minute.
pub proof fn entries_are_admitted_if_nothing_is_wrong(raws: Seq<RawSymbolSubscription>, i: int)
    requires
        0 <= i < raws.len(),
    ensures
        admitted(raws, i) <==> {
            let names = raws[i].intervals@;
            &&& uppercase(trimmed(raws[i].symbol@)).len() > 0
            &&& forall|j: int|
                0 <= j < i ==> uppercase(trimmed((#[trigger] raws[j]).symbol@)) != uppercase(
                    trimmed(raws[i].symbol@),
                )
            &&& names.len() > 0
            &&& forall|k: int|
                0 <= k < names.len() ==> (parsed_interval((#[trigger] names[k])@) matches Some(
                    interval,
                ) && (raws[i].source == RealtimeSource::Kline1m ==> interval.millis() >= 60_000))
        },
{
    let names = raws[i].intervals@;
    if admitted(raws, i) {
        assert forall|k: int| 0 <= k < names.len() implies (parsed_interval(
            (#[trigger] names[k])@,
        ) matches Some(interval) && (raws[i].source == RealtimeSource::Kline1m ==> interval.millis()
            >= 60_000)) by {
            assert(named_intervals(names)[k] == parsed_interval(names[k]@)->0);
        }
    }
}

/// No two sources share a name.
pub proof fn sources_are_told_apart(a: RealtimeSource, b: RealtimeSource)
    ensures
        a.text() == b.text() ==> a == b,
        RealtimeSource::Auto.text() == "auto"@ && RealtimeSource::Trade.text() == "trade"@
            && RealtimeSource::Kline1m.text() == "kline_1m"@,
{
    reveal_strlit("auto");
    reveal_strlit("trade");
    reveal_strlit("kline_1m");
    assert("auto"@.len() == 4 && "trade"@.len() == 5 && "kline_1m"@.len() == 8);
}

} // verus!
