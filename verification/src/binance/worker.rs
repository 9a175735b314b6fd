//! Following the exchange: live candles out of stream events.

use crate::binance::plan::{lists_wanted, pairs, triples, TargetKind};
use crate::binance::types::MarketEvent;
use crate::domain::candle::Candle;
use crate::domain::interval::{parsed_interval, Interval};
use crate::domain::number::{calculates, Calc, Double};
use crate::engine::aggregator::{AggregationError, Aggregator, TradeTick};
use crate::text::{same_text, to_upper, uppercase};
use std::collections::HashMap;
use vstd::prelude::*;
use vstd::string::*;

pub use crate::binance::plan::{KlineSource, SubscriptionPlan};

verus! {

broadcast use vstd::std_specs::hash::group_hash_axioms;

/// An interval that is built live from the candles of a shorter one.
#[derive(Debug)]
pub struct KlineRoll {
    pub symbol: String,
    pub base: String,
    pub target: String,
    pub aggregator: Aggregator,
}

/// An interval that is built live from trades.
#[derive(Debug)]
pub struct TradeRoll {
    pub symbol: String,
    pub target: String,
    pub aggregator: Aggregator,
}

/// What is to be done with a candle of the event's symbol.
#[derive(Debug, PartialEq, Eq)]
pub enum StoreAction {
    /// Put a closed candle into the buffer of those to be written.
    Buffer { interval: String, candle: Candle },
    /// Keep a closed candle in memory only.
    Remember { interval: String, candle: Candle },
    /// Drop the open candle.
    Forget { interval: String },
    /// Show a candle as the open one.
    Show { interval: String, candle: Candle },
}

/// An action as a value.
pub enum ActionView {
    Buffer { interval: Seq<char>, candle: Candle },
    Remember { interval: Seq<char>, candle: Candle },
    Forget { interval: Seq<char> },
    Show { interval: Seq<char>, candle: Candle },
}

impl StoreAction {
    pub open spec fn view(self) -> ActionView {
        match self {
            StoreAction::Buffer { interval, candle } => ActionView::Buffer {
                interval: interval@,
                candle,
            },
            StoreAction::Remember { interval, candle } => ActionView::Remember {
                interval: interval@,
                candle,
            },
            StoreAction::Forget { interval } => ActionView::Forget { interval: interval@ },
            StoreAction::Show { interval, candle } => ActionView::Show {
                interval: interval@,
                candle,
            },
        }
    }
}

pub open spec fn action_views(actions: Seq<StoreAction>) -> Seq<ActionView> {
    actions.map_values(|action: StoreAction| action@)
}

/// The parts one after the other.
pub open spec fn in_turn(parts: Seq<Seq<ActionView>>) -> Seq<ActionView>
    decreases parts.len(),
{
    if parts.len() == 0 {
        Seq::empty()
    } else {
        in_turn(parts.drop_last()) + parts.last()
    }
}

/// The interval that a stream's candle is of: by its canonical name, or one
/// minute by the exchange's name for the only candle stream that is followed.
pub open spec fn stream_interval(name: Seq<char>) -> Option<Interval> {
    if parsed_interval(name) is Some {
        parsed_interval(name)
    } else if name == "1m"@ {
        Some(Interval::Minutes(1))
    } else {
        None
    }
}

fn read_stream_interval(name: &str) -> (r: Option<Interval>)
    ensures
        r == stream_interval(name@),
{
    match Interval::parse(name) {
        Ok(interval) => Some(interval),
        Err(_) => {
            if same_text(name, "1m") {
                Some(Interval::Minutes(1))
            } else {
                None
            }
        },
    }
}

/// A candle as it is shown while its time runs: open until it has passed.
pub open spec fn preview(current: Candle, now_ms: i64) -> Candle {
    if now_ms <= current.close_time {
        Candle { is_closed: false, ..current }
    } else {
        current
    }
}

pub fn preview_of(current: Candle, now_ms: i64) -> (r: Candle)
    ensures
        r == preview(current, now_ms),
{
    if now_ms <= current.close_time {
        Candle { is_closed: false, ..current }
    } else {
        current
    }
}

pub open spec fn closing(target: Seq<char>, candle: Candle) -> Seq<ActionView> {
    seq![
        ActionView::Buffer { interval: target, candle },
        ActionView::Forget { interval: target },
    ]
}

/// What follows once a closed candle has been taken in, with result `r`: a
/// candle that was handed out is closed; one whose time has run out with the
/// input is closed too; else the open one is shown.
pub open spec fn kline_aftermath(
    middle: Aggregator,
    target: Seq<char>,
    input: Candle,
    now_ms: i64,
    r: Result<Option<Candle>, AggregationError>,
    after: Aggregator,
    actions: Seq<ActionView>,
) -> bool {
    let handed_out = match r {
        Ok(Some(closed)) => closing(target, closed),
        _ => Seq::empty(),
    };
    &&& after.span() == middle.span()
    &&& after.anchor() == middle.anchor()
    &&& match middle.open_candle() {
        Some(current) => if current.close_time <= input.close_time {
            &&& after.open_candle() is None
            &&& actions == handed_out + closing(target, current.finalized())
        } else {
            &&& after.open_candle() == Some(current)
            &&& actions == handed_out.push(
                ActionView::Show { interval: target, candle: preview(current, now_ms) },
            )
        },
        None => after.open_candle() is None && actions == handed_out,
    }
}

/// Taking a closed candle into an interval that is built from it.
pub open spec fn kline_rolled<F: Fn(Calc) -> Double>(
    before: Aggregator,
    target: Seq<char>,
    input: Candle,
    now_ms: i64,
    calc: F,
    after: Aggregator,
    actions: Seq<ActionView>,
) -> bool {
    exists|r: Result<Option<Candle>, AggregationError>, middle: Aggregator| #[trigger]
        before.advances(input, calc, r, middle) && kline_aftermath(
            middle,
            target,
            input,
            now_ms,
            r,
            after,
            actions,
        )
}

/// The interval is below a minute.
pub open spec fn sub_minute(target: Seq<char>) -> bool {
    parsed_interval(target) matches Some(interval) && interval.millis() < 60_000
}

/// What follows once a trade has been taken in, with result `r`: a candle that
/// was handed out is closed, and kept in memory only where its interval is
/// below a minute; the open one is shown.
pub open spec fn trade_aftermath(
    after: Aggregator,
    target: Seq<char>,
    r: Result<Option<Candle>, AggregationError>,
) -> Seq<ActionView> {
    let handed_out = match r {
        Ok(Some(closed)) => if sub_minute(target) {
            seq![
                ActionView::Remember { interval: target, candle: closed },
                ActionView::Forget { interval: target },
            ]
        } else {
            closing(target, closed)
        },
        _ => Seq::empty(),
    };
    match after.open_candle() {
        Some(current) => handed_out.push(
            ActionView::Show { interval: target, candle: current },
        ),
        None => handed_out,
    }
}

/// Taking a trade into an interval that is built from trades.
pub open spec fn trade_rolled<F: Fn(Calc) -> Double>(
    before: Aggregator,
    target: Seq<char>,
    trade: TradeTick,
    calc: F,
    after: Aggregator,
    actions: Seq<ActionView>,
) -> bool {
    exists|quote: Double, r: Result<Option<Candle>, AggregationError>|
        trade.quoted(calc, quote) && #[trigger] before.advances(
            trade.as_candle(quote),
            calc,
            r,
            after,
        ) && actions == trade_aftermath(after, target, r)
}

/// The roll is fed by candles of the series.
pub open spec fn fed_by(roll: KlineRoll, symbol: Seq<char>, source: Seq<char>) -> bool {
    roll.symbol@ == symbol && roll.base@ == source
}

/// One roll, before and after a closed candle of a series.
pub open spec fn kline_part<F: Fn(Calc) -> Double>(
    before: KlineRoll,
    symbol: Seq<char>,
    source: Seq<char>,
    input: Candle,
    now_ms: i64,
    calc: F,
    after: KlineRoll,
    actions: Seq<ActionView>,
) -> bool {
    &&& after.symbol == before.symbol
    &&& after.base == before.base
    &&& after.target == before.target
    &&& if fed_by(before, symbol, source) {
        kline_rolled(
            before.aggregator,
            before.target@,
            input,
            now_ms,
            calc,
            after.aggregator,
            actions,
        )
    } else {
        after.aggregator == before.aggregator && actions.len() == 0
    }
}

/// One roll, before and after a trade of a symbol.
pub open spec fn trade_part<F: Fn(Calc) -> Double>(
    before: TradeRoll,
    symbol: Seq<char>,
    trade: TradeTick,
    calc: F,
    after: TradeRoll,
    actions: Seq<ActionView>,
) -> bool {
    &&& after.symbol == before.symbol
    &&& after.target == before.target
    &&& if before.symbol@ == symbol {
        trade_rolled(
            before.aggregator,
            before.target@,
            trade,
            calc,
            after.aggregator,
            actions,
        )
    } else {
        after.aggregator == before.aggregator && actions.len() == 0
    }
}

/// All rolls, before and after a closed candle; `parts` has what each does.
pub open spec fn kline_parts<F: Fn(Calc) -> Double>(
    before: Seq<KlineRoll>,
    symbol: Seq<char>,
    source: Seq<char>,
    input: Candle,
    now_ms: i64,
    calc: F,
    after: Seq<KlineRoll>,
    parts: Seq<Seq<ActionView>>,
) -> bool {
    &&& after.len() == before.len()
    &&& parts.len() == before.len()
    &&& forall|i: int|
        0 <= i < before.len() ==> kline_part(
            #[trigger] before[i],
            symbol,
            source,
            input,
            now_ms,
            calc,
            after[i],
            parts[i],
        )
}

/// All rolls, before and after a trade; `parts` has what each does.
pub open spec fn trade_parts<F: Fn(Calc) -> Double>(
    before: Seq<TradeRoll>,
    symbol: Seq<char>,
    trade: TradeTick,
    calc: F,
    after: Seq<TradeRoll>,
    parts: Seq<Seq<ActionView>>,
) -> bool {
    &&& after.len() == before.len()
    &&& parts.len() == before.len()
    &&& forall|i: int|
        0 <= i < before.len() ==> trade_part(
            #[trigger] before[i],
            symbol,
            trade,
            calc,
            after[i],
            parts[i],
        )
}

fn take_kline<F: Fn(Calc) -> Double>(
    aggregator: &mut Aggregator,
    target: &str,
    input: Candle,
    now_ms: i64,
    calc: &F,
    actions: &mut Vec<StoreAction>,
) -> (part: Ghost<Seq<ActionView>>)
    requires
        calculates(*calc),
        old(aggregator).takes(input),
    ensures
        kline_rolled(
            *old(aggregator),
            target@,
            input,
            now_ms,
            *calc,
            *final(aggregator),
            part@,
        ),
        action_views(final(actions)@) == action_views(old(actions)@) + part@,
{
    let ghost actions0 = action_views(actions@);
    let ghost mut part: Seq<ActionView> = Seq::empty();
    assert(actions0 + part =~= actions0);
    let r = aggregator.ingest_candle(input, calc);
    let ghost middle = *aggregator;
    match r {
        Ok(Some(closed)) => {
            actions.push(StoreAction::Buffer { interval: target.to_owned(), candle: closed });
            actions.push(StoreAction::Forget { interval: target.to_owned() });
            proof {
                part = closing(target@, closed);
                assert(action_views(actions@) =~= actions0 + part);
            }
        },
        _ => {},
    }
    let ghost handed_out = part;
    match aggregator.current() {
        Some(current) => {
            if current.close_time <= input.close_time {
                let _ = aggregator.flush();
                let done = current.finalize();
                actions.push(StoreAction::Buffer { interval: target.to_owned(), candle: done });
                actions.push(StoreAction::Forget { interval: target.to_owned() });
                proof {
                    part = handed_out + closing(target@, done);
                    assert(action_views(actions@) =~= actions0 + part);
                }
            } else {
                let shown = preview_of(current, now_ms);
                actions.push(StoreAction::Show { interval: target.to_owned(), candle: shown });
                proof {
                    part = handed_out.push(
                        ActionView::Show { interval: target@, candle: shown },
                    );
                    assert(action_views(actions@) =~= actions0 + part);
                }
            }
        },
        None => {},
    }
    assert(kline_aftermath(middle, target@, input, now_ms, r, *aggregator, part));
    Ghost(part)
}

fn take_trade<F: Fn(Calc) -> Double>(
    aggregator: &mut Aggregator,
    target: &str,
    trade: TradeTick,
    calc: &F,
    actions: &mut Vec<StoreAction>,
) -> (part: Ghost<Seq<ActionView>>)
    requires
        calculates(*calc),
        old(aggregator).takes_trade(trade),
    ensures
        trade_rolled(
            *old(aggregator),
            target@,
            trade,
            *calc,
            *final(aggregator),
            part@,
        ),
        action_views(final(actions)@) == action_views(old(actions)@) + part@,
{
    let ghost actions0 = action_views(actions@);
    let ghost mut part: Seq<ActionView> = Seq::empty();
    assert(actions0 + part =~= actions0);
    let r = aggregator.ingest_trade(trade, calc);
    match r {
        Ok(Some(closed)) => {
            let below = match Interval::parse(target) {
                Ok(interval) => interval.as_millis() < 60_000,
                Err(_) => false,
            };
            if below {
                actions.push(
                    StoreAction::Remember { interval: target.to_owned(), candle: closed },
                );
            } else {
                actions.push(StoreAction::Buffer { interval: target.to_owned(), candle: closed });
            }
            actions.push(StoreAction::Forget { interval: target.to_owned() });
            proof {
                part = if below {
                    seq![
                        ActionView::Remember { interval: target@, candle: closed },
                        ActionView::Forget { interval: target@ },
                    ]
                } else {
                    closing(target@, closed)
                };
                assert(action_views(actions@) =~= actions0 + part);
            }
        },
        _ => {},
    }
    let ghost handed_out = part;
    match aggregator.current() {
        Some(current) => {
            actions.push(StoreAction::Show { interval: target.to_owned(), candle: current });
            proof {
                part = handed_out.push(ActionView::Show { interval: target@, candle: current });
                assert(action_views(actions@) =~= actions0 + part);
            }
        },
        None => {},
    }
    assert(part == trade_aftermath(*aggregator, target@, r));
    Ghost(part)
}

proof fn in_turn_push(parts: Seq<Seq<ActionView>>, part: Seq<ActionView>)
    ensures
        in_turn(parts.push(part)) == in_turn(parts) + part,
{
    assert(parts.push(part).drop_last() =~= parts);
}

/// A price that alerts are held against.
#[derive(Debug, PartialEq, Eq)]
pub struct PriceSeen {
    pub symbol: String,
    pub price: Double,
    pub at_ms: i64,
}

/// The state of the worker.
#[derive(Debug)]
pub struct BinanceWorker {
    pub plan: SubscriptionPlan,
    pub sync_lookback_bars: u32,
    pub catch_up_on_first_connect: bool,
    pub flush_max_rows: usize,
    pub kline_aggregators: Vec<KlineRoll>,
    pub trade_aggregators: Vec<TradeRoll>,
    pub alert_last_sides: HashMap<i64, i8>,
}

pub open spec fn kline_rows(rolls: Seq<KlineRoll>) -> Seq<Seq<Seq<char>>> {
    rolls.map_values(|roll: KlineRoll| seq![roll.symbol@, roll.base@, roll.target@])
}

pub open spec fn trade_rows(rolls: Seq<TradeRoll>) -> Seq<Seq<Seq<char>>> {
    rolls.map_values(|roll: TradeRoll| seq![roll.symbol@, roll.target@])
}

/// The aggregator of an interval at the start.
pub open spec fn fresh(aggregator: Aggregator, target: Seq<char>) -> bool {
    &&& parsed_interval(target) == Some(aggregator.span())
    &&& aggregator.anchor() is None
    &&& aggregator.open_candle() is None
}

/// The rows whose last text names an interval.
pub open spec fn readable(rows: Seq<Seq<Seq<char>>>) -> Seq<Seq<Seq<char>>> {
    rows.filter(|row: Seq<Seq<char>>| parsed_interval(row.last()) is Some)
}

fn kline_rolls(targets: &Vec<(String, String, String)>) -> (r: Vec<KlineRoll>)
    ensures
        kline_rows(r@) == readable(triples(targets@)),
        forall|i: int|
            0 <= i < r@.len() ==> fresh((#[trigger] r@[i]).aggregator, r@[i].target@),
{
    let ghost rows = triples(targets@);
    let ghost keep = |row: Seq<Seq<char>>| parsed_interval(row.last()) is Some;
    let mut rolls: Vec<KlineRoll> = Vec::new();
    let mut i: usize = 0;
    assert(rows.take(0).filter(keep) =~= Seq::<Seq<Seq<char>>>::empty()) by {
        reveal(Seq::filter);
    }
    assert(kline_rows(rolls@) =~= Seq::<Seq<Seq<char>>>::empty());
    while i < targets.len()
        invariant
            i <= targets@.len(),
            rows == triples(targets@),
            keep == (|row: Seq<Seq<char>>| parsed_interval(row.last()) is Some),
            kline_rows(rolls@) == rows.take(i as int).filter(keep),
            forall|j: int|
                0 <= j < rolls@.len() ==> fresh(
                    (#[trigger] rolls@[j]).aggregator,
                    rolls@[j].target@,
                ),
        decreases targets@.len() - i,
    {
        let ghost before = rolls@;
        assert(rows.take(i + 1).drop_last() =~= rows.take(i as int));
        proof {
            reveal(Seq::filter);
        }
        let ghost row = rows[i as int];
        assert(row.last() == targets@[i as int].2@);
        match Interval::parse(targets[i].2.as_str()) {
            Ok(interval) => {
                let roll = KlineRoll {
                    symbol: targets[i].0.clone(),
                    base: targets[i].1.clone(),
                    target: targets[i].2.clone(),
                    aggregator: Aggregator::new(interval),
                };
                rolls.push(roll);
                assert(kline_rows(rolls@) =~= kline_rows(before).push(row));
            },
            Err(_) => {},
        }
        i += 1;
    }
    assert(rows.take(i as int) =~= rows);
    rolls
}

fn trade_rolls(targets: &Vec<(String, String)>) -> (r: Vec<TradeRoll>)
    ensures
        trade_rows(r@) == readable(pairs(targets@)),
        forall|i: int|
            0 <= i < r@.len() ==> fresh((#[trigger] r@[i]).aggregator, r@[i].target@),
{
    let ghost rows = pairs(targets@);
    let ghost keep = |row: Seq<Seq<char>>| parsed_interval(row.last()) is Some;
    let mut rolls: Vec<TradeRoll> = Vec::new();
    let mut i: usize = 0;
    assert(rows.take(0).filter(keep) =~= Seq::<Seq<Seq<char>>>::empty()) by {
        reveal(Seq::filter);
    }
    assert(trade_rows(rolls@) =~= Seq::<Seq<Seq<char>>>::empty());
    while i < targets.len()
        invariant
            i <= targets@.len(),
            rows == pairs(targets@),
            keep == (|row: Seq<Seq<char>>| parsed_interval(row.last()) is Some),
            trade_rows(rolls@) == rows.take(i as int).filter(keep),
            forall|j: int|
                0 <= j < rolls@.len() ==> fresh(
                    (#[trigger] rolls@[j]).aggregator,
                    rolls@[j].target@,
                ),
        decreases targets@.len() - i,
    {
        let ghost before = rolls@;
        assert(rows.take(i + 1).drop_last() =~= rows.take(i as int));
        proof {
            reveal(Seq::filter);
        }
        let ghost row = rows[i as int];
        assert(row.last() == targets@[i as int].1@);
        match Interval::parse(targets[i].1.as_str()) {
            Ok(interval) => {
                let roll = TradeRoll {
                    symbol: targets[i].0.clone(),
                    target: targets[i].1.clone(),
                    aggregator: Aggregator::new(interval),
                };
                rolls.push(roll);
                assert(trade_rows(rolls@) =~= trade_rows(before).push(row));
            },
            Err(_) => {},
        }
        i += 1;
    }
    assert(rows.take(i as int) =~= rows);
    rolls
}

/// What an event does to the rolls and what is to be done for it.
pub open spec fn handled<F: Fn(Calc) -> Double>(
    before: BinanceWorker,
    event: MarketEvent,
    now_ms: i64,
    calc: F,
    after: BinanceWorker,
    actions: Seq<ActionView>,
) -> bool {
    match event {
        MarketEvent::ClosedKline { symbol, interval, candle } => {
            &&& after.trade_aggregators == before.trade_aggregators
            &&& match stream_interval(interval@) {
                Some(source) => exists|parts: Seq<Seq<ActionView>>| #[trigger]
                    kline_parts(
                        before.kline_aggregators@,
                        symbol@,
                        source.name(),
                        candle,
                        now_ms,
                        calc,
                        after.kline_aggregators@,
                        parts,
                    ) && actions == closing(source.name(), candle) + in_turn(parts),
                None => after.kline_aggregators == before.kline_aggregators && actions.len() == 0,
            }
        },
        MarketEvent::AggTrade { symbol, trade } => {
            &&& after.kline_aggregators == before.kline_aggregators
            &&& exists|parts: Seq<Seq<ActionView>>| #[trigger]
                trade_parts(
                    before.trade_aggregators@,
                    symbol@,
                    trade,
                    calc,
                    after.trade_aggregators@,
                    parts,
                ) && actions == in_turn(parts)
        },
        _ => {
            &&& after.kline_aggregators == before.kline_aggregators
            &&& after.trade_aggregators == before.trade_aggregators
            &&& actions.len() == 0
        },
    }
}

impl BinanceWorker {
    /// All rolls that the event feeds can take it.
    pub open spec fn accepts(self, event: MarketEvent) -> bool {
        match event {
            MarketEvent::ClosedKline { symbol, interval, candle } => match stream_interval(
                interval@,
            ) {
                Some(source) => forall|i: int|
                    0 <= i < self.kline_aggregators@.len() && fed_by(
                        #[trigger] self.kline_aggregators@[i],
                        symbol@,
                        source.name(),
                    ) ==> self.kline_aggregators@[i].aggregator.takes(candle),
                None => true,
            },
            MarketEvent::AggTrade { symbol, trade } => forall|i: int|
                0 <= i < self.trade_aggregators@.len() && (
                #[trigger] self.trade_aggregators@[i]).symbol@ == symbol@
                    ==> self.trade_aggregators@[i].aggregator.takes_trade(trade),
            _ => true,
        }
    }

    pub fn new(
        plan: SubscriptionPlan,
        sync_lookback_bars: u32,
        catch_up_on_first_connect: bool,
        flush_max_rows: usize,
    ) -> (r: Self)
        ensures
            r.plan == plan,
            r.sync_lookback_bars == sync_lookback_bars,
            r.catch_up_on_first_connect == catch_up_on_first_connect,
            r.flush_max_rows == flush_max_rows,
            exists|rows: Seq<Seq<Seq<char>>>| #[trigger]
                lists_wanted(plan@, TargetKind::Realtime, rows) && kline_rows(
                    r.kline_aggregators@,
                ) == readable(rows),
            exists|rows: Seq<Seq<Seq<char>>>| #[trigger]
                lists_wanted(plan@, TargetKind::Trade, rows) && trade_rows(r.trade_aggregators@)
                    == readable(rows),
            forall|i: int|
                0 <= i < r.kline_aggregators@.len() ==> fresh(
                    (#[trigger] r.kline_aggregators@[i]).aggregator,
                    r.kline_aggregators@[i].target@,
                ),
            forall|i: int|
                0 <= i < r.trade_aggregators@.len() ==> fresh(
                    (#[trigger] r.trade_aggregators@[i]).aggregator,
                    r.trade_aggregators@[i].target@,
                ),
            r.alert_last_sides@ == Map::<i64, i8>::empty(),
    {
        let kline_targets = plan.realtime_kline_targets();
        let trade_targets = plan.trade_targets();
        BinanceWorker {
            plan,
            sync_lookback_bars,
            catch_up_on_first_connect,
            flush_max_rows,
            kline_aggregators: kline_rolls(&kline_targets),
            trade_aggregators: trade_rolls(&trade_targets),
            alert_last_sides: HashMap::new(),
        }
    }

    /// Whether all rolls that the event feeds can take it.
    pub fn can_handle(&self, event: &MarketEvent) -> (r: bool)
        ensures
            r == self.accepts(*event),
    {
        match event {
            MarketEvent::ClosedKline { symbol, interval, candle } => {
                let source = match read_stream_interval(interval.as_str()) {
                    Some(found) => found.canonical(),
                    None => {
                        return true;
                    },
                };
                let mut i: usize = 0;
                while i < self.kline_aggregators.len()
                    invariant
                        i <= self.kline_aggregators@.len(),
                        *event == (MarketEvent::ClosedKline {
                            symbol: *symbol,
                            interval: *interval,
                            candle: *candle,
                        }),
                        stream_interval(interval@) matches Some(found) && source@ == found.name(),
                        forall|j: int|
                            0 <= j < i && fed_by(
                                #[trigger] self.kline_aggregators@[j],
                                symbol@,
                                source@,
                            ) ==> self.kline_aggregators@[j].aggregator.takes(*candle),
                    decreases self.kline_aggregators@.len() - i,
                {
                    let roll = &self.kline_aggregators[i];
                    if same_text(roll.symbol.as_str(), symbol.as_str()) && same_text(
                        roll.base.as_str(),
                        source.as_str(),
                    ) && !roll.aggregator.can_take(candle) {
                        assert(fed_by(self.kline_aggregators@[i as int], symbol@, source@));
                        return false;
                    }
                    i += 1;
                }
                true
            },
            MarketEvent::AggTrade { symbol, trade } => {
                let mut i: usize = 0;
                while i < self.trade_aggregators.len()
                    invariant
                        i <= self.trade_aggregators@.len(),
                        *event == (MarketEvent::AggTrade { symbol: *symbol, trade: *trade }),
                        forall|j: int|
                            0 <= j < i && (#[trigger] self.trade_aggregators@[j]).symbol@ == symbol@
                                ==> self.trade_aggregators@[j].aggregator.takes_trade(*trade),
                    decreases self.trade_aggregators@.len() - i,
                {
                    let roll = &self.trade_aggregators[i];
                    if same_text(roll.symbol.as_str(), symbol.as_str())
                        && !roll.aggregator.can_take_trade(trade) {
                        return false;
                    }
                    i += 1;
                }
                true
            },
            _ => true,
        }
    }

    fn handle_closed_kline<F: Fn(Calc) -> Double>(
        &mut self,
        symbol: &str,
        source: &str,
        candle: Candle,
        now_ms: i64,
        calc: &F,
        actions: &mut Vec<StoreAction>,
    )
        requires
            calculates(*calc),
            forall|i: int|
                0 <= i < old(self).kline_aggregators@.len() && fed_by(
                    #[trigger] old(self).kline_aggregators@[i],
                    symbol@,
                    source@,
                ) ==> old(self).kline_aggregators@[i].aggregator.takes(candle),
        ensures
            final(self).plan == old(self).plan,
            final(self).sync_lookback_bars == old(self).sync_lookback_bars,
            final(self).catch_up_on_first_connect == old(self).catch_up_on_first_connect,
            final(self).flush_max_rows == old(self).flush_max_rows,
            final(self).trade_aggregators == old(self).trade_aggregators,
            final(self).alert_last_sides == old(self).alert_last_sides,
            exists|parts: Seq<Seq<ActionView>>| #[trigger]
                kline_parts(
                    old(self).kline_aggregators@,
                    symbol@,
                    source@,
                    candle,
                    now_ms,
                    *calc,
                    final(self).kline_aggregators@,
                    parts,
                ) && action_views(final(actions)@) == action_views(old(actions)@) + in_turn(parts),
    {
        let ghost rolls0 = self.kline_aggregators@;
        let ghost actions0 = action_views(actions@);
        let ghost mut parts: Seq<Seq<ActionView>> = Seq::empty();
        let mut i: usize = 0;
        assert(actions0 + in_turn(parts) =~= actions0);
        while i < self.kline_aggregators.len()
            invariant
                i <= rolls0.len(),
                self.kline_aggregators@.len() == rolls0.len(),
                rolls0 == old(self).kline_aggregators@,
                actions0 == action_views(old(actions)@),
                calculates(*calc),
                self.plan == old(self).plan,
                self.sync_lookback_bars == old(self).sync_lookback_bars,
                self.catch_up_on_first_connect == old(self).catch_up_on_first_connect,
                self.flush_max_rows == old(self).flush_max_rows,
                self.trade_aggregators == old(self).trade_aggregators,
                self.alert_last_sides == old(self).alert_last_sides,
                forall|j: int|
                    0 <= j < rolls0.len() && fed_by(#[trigger] rolls0[j], symbol@, source@)
                        ==> rolls0[j].aggregator.takes(candle),
                forall|j: int| i <= j < rolls0.len() ==> self.kline_aggregators@[j] == rolls0[j],
                parts.len() == i,
                forall|j: int|
                    0 <= j < i ==> kline_part(
                        #[trigger] rolls0[j],
                        symbol@,
                        source@,
                        candle,
                        now_ms,
                        *calc,
                        self.kline_aggregators@[j],
                        parts[j],
                    ),
                action_views(actions@) == actions0 + in_turn(parts),
            decreases rolls0.len() - i,
        {
            let ghost roll = self.kline_aggregators@[i as int];
            assert(roll == rolls0[i as int]);
            if same_text(self.kline_aggregators[i].symbol.as_str(), symbol) && same_text(
                self.kline_aggregators[i].base.as_str(),
                source,
            ) {
                assert(fed_by(rolls0[i as int], symbol@, source@));
                let mut aggregator = self.kline_aggregators[i].aggregator;
                let Ghost(part) = take_kline(
                    &mut aggregator,
                    self.kline_aggregators[i].target.as_str(),
                    candle,
                    now_ms,
                    calc,
                    actions,
                );
                self.kline_aggregators[i].aggregator = aggregator;
                proof {
                    in_turn_push(parts, part);
                    assert(actions0 + in_turn(parts.push(part)) =~= actions0 + in_turn(parts)
                        + part);
                    parts = parts.push(part);
                }
            } else {
                proof {
                    let part = Seq::<ActionView>::empty();
                    in_turn_push(parts, part);
                    assert(in_turn(parts) + part =~= in_turn(parts));
                    parts = parts.push(part);
                }
            }
            i += 1;
        }
        assert(kline_parts(
            rolls0,
            symbol@,
            source@,
            candle,
            now_ms,
            *calc,
            self.kline_aggregators@,
            parts,
        ));
    }

    fn handle_trade<F: Fn(Calc) -> Double>(
        &mut self,
        symbol: &str,
        trade: TradeTick,
        calc: &F,
        actions: &mut Vec<StoreAction>,
    )
        requires
            calculates(*calc),
            forall|i: int|
                0 <= i < old(self).trade_aggregators@.len() && (#[trigger] old(
                    self,
                ).trade_aggregators@[i]).symbol@ == symbol@ ==> old(
                    self,
                ).trade_aggregators@[i].aggregator.takes_trade(trade),
        ensures
            final(self).plan == old(self).plan,
            final(self).sync_lookback_bars == old(self).sync_lookback_bars,
            final(self).catch_up_on_first_connect == old(self).catch_up_on_first_connect,
            final(self).flush_max_rows == old(self).flush_max_rows,
            final(self).kline_aggregators == old(self).kline_aggregators,
            final(self).alert_last_sides == old(self).alert_last_sides,
            exists|parts: Seq<Seq<ActionView>>| #[trigger]
                trade_parts(
                    old(self).trade_aggregators@,
                    symbol@,
                    trade,
                    *calc,
                    final(self).trade_aggregators@,
                    parts,
                ) && action_views(final(actions)@) == action_views(old(actions)@) + in_turn(parts),
    {
        let ghost rolls0 = self.trade_aggregators@;
        let ghost actions0 = action_views(actions@);
        let ghost mut parts: Seq<Seq<ActionView>> = Seq::empty();
        let mut i: usize = 0;
        assert(actions0 + in_turn(parts) =~= actions0);
        while i < self.trade_aggregators.len()
            invariant
                i <= rolls0.len(),
                self.trade_aggregators@.len() == rolls0.len(),
                rolls0 == old(self).trade_aggregators@,
                actions0 == action_views(old(actions)@),
                calculates(*calc),
                self.plan == old(self).plan,
                self.sync_lookback_bars == old(self).sync_lookback_bars,
                self.catch_up_on_first_connect == old(self).catch_up_on_first_connect,
                self.flush_max_rows == old(self).flush_max_rows,
                self.kline_aggregators == old(self).kline_aggregators,
                self.alert_last_sides == old(self).alert_last_sides,
                forall|j: int|
                    0 <= j < rolls0.len() && (#[trigger] rolls0[j]).symbol@ == symbol@
                        ==> rolls0[j].aggregator.takes_trade(trade),
                forall|j: int| i <= j < rolls0.len() ==> self.trade_aggregators@[j] == rolls0[j],
                parts.len() == i,
                forall|j: int|
                    0 <= j < i ==> trade_part(
                        #[trigger] rolls0[j],
                        symbol@,
                        trade,
                        *calc,
                        self.trade_aggregators@[j],
                        parts[j],
                    ),
                action_views(actions@) == actions0 + in_turn(parts),
            decreases rolls0.len() - i,
        {
            let ghost roll = self.trade_aggregators@[i as int];
            assert(roll == rolls0[i as int]);
            if same_text(self.trade_aggregators[i].symbol.as_str(), symbol) {
                let mut aggregator = self.trade_aggregators[i].aggregator;
                let Ghost(part) = take_trade(
                    &mut aggregator,
                    self.trade_aggregators[i].target.as_str(),
                    trade,
                    calc,
                    actions,
                );
                self.trade_aggregators[i].aggregator = aggregator;
                proof {
                    in_turn_push(parts, part);
                    assert(actions0 + in_turn(parts.push(part)) =~= actions0 + in_turn(parts)
                        + part);
                    parts = parts.push(part);
                }
            } else {
                proof {
                    let part = Seq::<ActionView>::empty();
                    in_turn_push(parts, part);
                    assert(in_turn(parts) + part =~= in_turn(parts));
                    parts = parts.push(part);
                }
            }
            i += 1;
        }
        assert(trade_parts(rolls0, symbol@, trade, *calc, self.trade_aggregators@, parts));
    }

    /// Takes in an event and tells, in order, what is to be done for its
    /// symbol.
    pub fn handle_event<F: Fn(Calc) -> Double>(
        &mut self,
        event: &MarketEvent,
        now_ms: i64,
        calc: &F,
    ) -> (r: Vec<StoreAction>)
        requires
            calculates(*calc),
            old(self).accepts(*event),
        ensures
            handled(*old(self), *event, now_ms, *calc, *final(self), action_views(r@)),
            final(self).plan == old(self).plan,
            final(self).sync_lookback_bars == old(self).sync_lookback_bars,
            final(self).catch_up_on_first_connect == old(self).catch_up_on_first_connect,
            final(self).flush_max_rows == old(self).flush_max_rows,
            final(self).alert_last_sides == old(self).alert_last_sides,
    {
        let mut actions: Vec<StoreAction> = Vec::new();
        match event {
            MarketEvent::ClosedKline { symbol, interval, candle } => {
                match read_stream_interval(interval.as_str()) {
                    Some(found) => {
                        let source = found.canonical();
                        actions.push(
                            StoreAction::Buffer { interval: source.clone(), candle: *candle },
                        );
                        actions.push(StoreAction::Forget { interval: source.clone() });
                        assert(action_views(actions@) =~= closing(source@, *candle));
                        self.handle_closed_kline(
                            symbol.as_str(),
                            source.as_str(),
                            *candle,
                            now_ms,
                            calc,
                            &mut actions,
                        );
                    },
                    None => {},
                }
            },
            MarketEvent::AggTrade { symbol, trade } => {
                assert(action_views(actions@) =~= Seq::<ActionView>::empty());
                self.handle_trade(symbol.as_str(), *trade, calc, &mut actions);
                proof {
                    let parts = choose|parts: Seq<Seq<ActionView>>| #[trigger]
                        trade_parts(
                            old(self).trade_aggregators@,
                            symbol@,
                            *trade,
                            *calc,
                            self.trade_aggregators@,
                            parts,
                        ) && action_views(actions@) == Seq::<ActionView>::empty() + in_turn(parts);
                    assert(Seq::<ActionView>::empty() + in_turn(parts) =~= in_turn(parts));
                }
            },
            _ => {},
        }
        actions
    }

    /// The price that alerts are held against: the close of a closed candle, or
    /// the price of a trade.
    pub fn price_to_check(event: &MarketEvent, now_ms: i64) -> (r: Option<PriceSeen>)
        ensures
            match *event {
                MarketEvent::ClosedKline { symbol, interval, candle } => if stream_interval(
                    interval@,
                ) is Some {
                    r matches Some(seen) && seen.symbol@ == uppercase(symbol@) && seen.price
                        == candle.close && seen.at_ms == now_ms
                } else {
                    r is None
                },
                MarketEvent::AggTrade { symbol, trade } => r matches Some(seen)
                    && seen.symbol@ == uppercase(symbol@) && seen.price == trade.price
                    && seen.at_ms == trade.timestamp_ms,
                _ => r is None,
            },
    {
        match event {
            MarketEvent::ClosedKline { symbol, interval, candle } => {
                match read_stream_interval(interval.as_str()) {
                    Some(_) => Some(
                        PriceSeen {
                            symbol: to_upper(symbol.as_str()),
                            price: candle.close,
                            at_ms: now_ms,
                        },
                    ),
                    None => None,
                }
            },
            MarketEvent::AggTrade { symbol, trade } => Some(
                PriceSeen {
                    symbol: to_upper(symbol.as_str()),
                    price: trade.price,
                    at_ms: trade.timestamp_ms,
                },
            ),
            _ => None,
        }
    }

    /// Whether so many waiting rows are to be written now.
    pub fn flush_due(&self, rows: usize) -> (r: bool)
        ensures
            r == (rows >= self.flush_max_rows),
    {
        rows >= self.flush_max_rows
    }

    pub fn reset_kline_aggregators(&mut self)
        ensures
            final(self).plan == old(self).plan,
            final(self).sync_lookback_bars == old(self).sync_lookback_bars,
            final(self).catch_up_on_first_connect == old(self).catch_up_on_first_connect,
            final(self).flush_max_rows == old(self).flush_max_rows,
            final(self).trade_aggregators == old(self).trade_aggregators,
            final(self).alert_last_sides == old(self).alert_last_sides,
            final(self).kline_aggregators@.len() == old(self).kline_aggregators@.len(),
            forall|i: int|
                0 <= i < final(self).kline_aggregators@.len() ==> emptied(
                    old(self).kline_aggregators@[i],
                    #[trigger] final(self).kline_aggregators@[i],
                ),
    {
        let ghost rolls0 = self.kline_aggregators@;
        let mut i: usize = 0;
        while i < self.kline_aggregators.len()
            invariant
                i <= rolls0.len(),
                self.kline_aggregators@.len() == rolls0.len(),
                self.plan == old(self).plan,
                self.sync_lookback_bars == old(self).sync_lookback_bars,
                self.catch_up_on_first_connect == old(self).catch_up_on_first_connect,
                self.flush_max_rows == old(self).flush_max_rows,
                self.trade_aggregators == old(self).trade_aggregators,
                self.alert_last_sides == old(self).alert_last_sides,
                rolls0 == old(self).kline_aggregators@,
                forall|j: int|
                    0 <= j < i ==> emptied(rolls0[j], #[trigger] self.kline_aggregators@[j]),
                forall|j: int| i <= j < rolls0.len() ==> self.kline_aggregators@[j] == rolls0[j],
            decreases rolls0.len() - i,
        {
            let mut aggregator = self.kline_aggregators[i].aggregator;
            aggregator.reset();
            self.kline_aggregators[i].aggregator = aggregator;
            i += 1;
        }
    }
}

/// The roll without its open candle.
pub open spec fn emptied(before: KlineRoll, after: KlineRoll) -> bool {
    &&& after.symbol == before.symbol
    &&& after.base == before.base
    &&& after.target == before.target
    &&& after.aggregator.span() == before.aggregator.span()
    &&& after.aggregator.anchor() == before.aggregator.anchor()
    &&& after.aggregator.open_candle() is None
}

/// A candle that still runs changes nothing and leads to nothing.
pub proof fn running_candles_change_nothing<F: Fn(Calc) -> Double>(
    before: BinanceWorker,
    symbol: String,
    interval: String,
    candle: Candle,
    now_ms: i64,
    calc: F,
    after: BinanceWorker,
    actions: Seq<ActionView>,
)
    requires
        handled(
            before,
            MarketEvent::OpenKline { symbol, interval, candle },
            now_ms,
            calc,
            after,
            actions,
        ),
    ensures
        after.kline_aggregators == before.kline_aggregators,
        after.trade_aggregators == before.trade_aggregators,
        actions.len() == 0,
{
}

/// A closed candle is always put into the buffer first, and what was shown for
/// its interval is dropped.
pub proof fn closed_candles_are_buffered<F: Fn(Calc) -> Double>(
    before: BinanceWorker,
    symbol: String,
    interval: String,
    candle: Candle,
    now_ms: i64,
    calc: F,
    after: BinanceWorker,
    actions: Seq<ActionView>,
)
    requires
        stream_interval(interval@) is Some,
        handled(
            before,
            MarketEvent::ClosedKline { symbol, interval, candle },
            now_ms,
            calc,
            after,
            actions,
        ),
    ensures
        actions.len() >= 2,
        actions[0] == (ActionView::Buffer { interval: stream_interval(interval@)->0.name(), candle }),
        actions[1] == (ActionView::Forget { interval: stream_interval(interval@)->0.name() }),
{
}

proof fn minutes_are_not_named_so()
    ensures
        parsed_interval("1m"@) is None,
{
    reveal_strlit("1m");
    let s = "1m"@;
    assert(s.len() == 2 && s[0] == '1' && s[1] == 'm');
    assert(!crate::text::white_space('1') && !crate::text::white_space('m'));
    assert(crate::text::trim_start(s) == s);
    assert(crate::text::trim_end(s) == s);
    assert(seq!['D'].len() == 1 && seq!['d'].len() == 1 && seq!['W'].len() == 1
        && seq!['w'].len() == 1);
    assert(s.last() == 'm' && crate::text::ascii_letter('m'));
    assert(forall|v: u32| (#[trigger] crate::domain::interval::with_unit(v, 'm')) is None);
    assert(crate::domain::interval::named_interval(s) is None);
}

/// A stream's interval is read by its own name, and the exchange's name of the
/// minute stands for the minute.
pub proof fn stream_names_are_understood(interval: Interval)
    requires
        interval.supported(),
    ensures
        stream_interval(interval.name()) == Some(interval),
        stream_interval("1m"@) == Some(Interval::Minutes(1)),
{
    crate::domain::interval::canonical_names_are_read_back(interval);
    minutes_are_not_named_so();
}

/// The actions keep one target: they buffer closed candles of it, each time
/// followed by forgetting its open candle, or show its open candle.
pub open spec fn of_target(action: ActionView, target: Seq<char>) -> bool {
    match action {
        ActionView::Buffer { interval, candle } => interval == target && candle.is_closed,
        ActionView::Remember { interval, candle } => interval == target && candle.is_closed,
        ActionView::Forget { interval } => interval == target,
        ActionView::Show { interval, candle } => interval == target,
    }
}

/// Taking a closed candle into a roll leaves no candle open that ends with it
/// or before: such a candle is buffered, closed, and forgotten. One that is
/// still running is shown, not closed as long as it runs. A roll of another
/// symbol or another base is left alone.
pub proof fn rolls_close_with_their_candle<F: Fn(Calc) -> Double>(
    before: KlineRoll,
    symbol: Seq<char>,
    source: Seq<char>,
    input: Candle,
    now_ms: i64,
    calc: F,
    after: KlineRoll,
    actions: Seq<ActionView>,
)
    requires
        kline_part(before, symbol, source, input, now_ms, calc, after, actions),
    ensures
        before.symbol@ != symbol || before.base@ != source ==> after.aggregator == before.aggregator
            && actions.len() == 0,
        before.symbol@ == symbol && before.base@ == source ==> {
            &&& forall|i: int|
                0 <= i < actions.len() ==> of_target(#[trigger] actions[i], before.target@) && !(
                actions[i] is Remember)
            &&& forall|i: int|
                0 <= i < actions.len() && (#[trigger] actions[i]) is Buffer ==> i + 1
                    < actions.len() && actions[i + 1] is Forget
            &&& after.aggregator.open_candle() matches Some(open) ==> {
                &&& input.close_time < open.close_time
                &&& actions.len() > 0
                &&& actions.last() matches ActionView::Show { interval, candle } && {
                    &&& candle == (Candle { is_closed: candle.is_closed, ..open })
                    &&& now_ms <= open.close_time ==> !candle.is_closed
                    &&& now_ms > open.close_time ==> candle == open
                }
            }
            &&& after.aggregator.open_candle() is None ==> actions.len() > 0
                && actions.last() is Forget
        },
{
    if before.symbol@ == symbol && before.base@ == source {
        let (r, middle) = choose|r: Result<Option<Candle>, AggregationError>, middle: Aggregator|
            #[trigger]
            before.aggregator.advances(input, calc, r, middle) && kline_aftermath(
                middle,
                before.target@,
                input,
                now_ms,
                r,
                after.aggregator,
                actions,
            );
        assert(before.aggregator.advances(input, calc, r, middle));
        assert(middle.open_candle() is Some);
        let handed_out = match r {
            Ok(Some(closed)) => closing(before.target@, closed),
            _ => Seq::empty(),
        };
        assert(handed_out.len() == 0 || handed_out.len() == 2);
        assert forall|i: int| 0 <= i < handed_out.len() implies actions[i] == handed_out[i] by {}
        if after.aggregator.open_candle() is None {
            assert(actions.len() == handed_out.len() + 2);
            assert(actions[handed_out.len() as int] is Buffer);
            assert(actions[handed_out.len() as int + 1] is Forget);
        } else {
            assert(actions.len() == handed_out.len() + 1);
            assert(actions[handed_out.len() as int] is Show);
        }
    }
}

/// A roll without an open candle makes one of a single input: closed and
/// buffered at once where the input reaches the end of the bucket, shown where
/// it does not. The candle opens with the bucket.
pub proof fn a_first_input_fills_or_opens_a_candle<F: Fn(Calc) -> Double>(
    before: KlineRoll,
    symbol: Seq<char>,
    source: Seq<char>,
    input: Candle,
    now_ms: i64,
    calc: F,
    after: KlineRoll,
    actions: Seq<ActionView>,
)
    requires
        kline_part(before, symbol, source, input, now_ms, calc, after, actions),
        before.symbol@ == symbol && before.base@ == source,
        before.aggregator.open_candle() is None,
        before.aggregator.anchor() is None,
        before.aggregator.takes(input),
    ensures
        ({
            let start = before.aggregator.span().bucket(input.open_time as int);
            let end = start + before.aggregator.span().millis() - 1;
            &&& input.close_time >= end ==> after.aggregator.open_candle() is None && actions
                == seq![
                ActionView::Buffer {
                    interval: before.target@,
                    candle: Candle { open_time: start as i64, is_closed: true, ..input },
                },
                ActionView::Forget { interval: before.target@ },
            ]
            &&& input.close_time < end ==> after.aggregator.open_candle() == Some(
                Candle { open_time: start as i64, close_time: end as i64, ..input },
            ) && actions.len() == 1 && actions[0] is Show
        }),
{
    crate::engine::aggregator::bucket_is_a_time(before.aggregator, input.open_time);
    let (r, middle) = choose|r: Result<Option<Candle>, AggregationError>, middle: Aggregator|
        #[trigger]
        before.aggregator.advances(input, calc, r, middle) && kline_aftermath(
            middle,
            before.target@,
            input,
            now_ms,
            r,
            after.aggregator,
            actions,
        );
    assert(before.aggregator.advances(input, calc, r, middle));
    let start = before.aggregator.span().bucket(input.open_time as int);
    let end = start + before.aggregator.span().millis() - 1;
    if input.close_time >= end {
        assert(actions =~= seq![
            ActionView::Buffer {
                interval: before.target@,
                candle: Candle { open_time: start as i64, is_closed: true, ..input },
            },
            ActionView::Forget { interval: before.target@ },
        ]);
    } else {
        assert(actions.len() == 1);
    }
}

/// A trade leaves a candle open, which is shown. A candle that it closes is
/// remembered where the interval is shorter than a minute, and buffered where
/// it is not, and the open one before it is forgotten. A roll of another symbol
/// is left alone.
pub proof fn trades_show_the_open_candle<F: Fn(Calc) -> Double>(
    before: TradeRoll,
    symbol: Seq<char>,
    trade: TradeTick,
    calc: F,
    after: TradeRoll,
    actions: Seq<ActionView>,
)
    requires
        trade_part(before, symbol, trade, calc, after, actions),
    ensures
        before.symbol@ != symbol ==> after.aggregator == before.aggregator && actions.len() == 0,
        before.symbol@ == symbol ==> {
            &&& after.aggregator.open_candle() matches Some(open) && actions.len() > 0
                && actions.last() == (ActionView::Show { interval: before.target@, candle: open })
            &&& actions.len() == 1 || actions.len() == 3
            &&& actions.len() == 3 ==> {
                let closed = before.aggregator.open_candle()->0.finalized();
                let short = parsed_interval(before.target@) is Some && parsed_interval(
                    before.target@,
                )->0.millis() < 60_000;
                &&& before.aggregator.open_candle() is Some
                &&& short ==> actions[0] == (ActionView::Remember {
                    interval: before.target@,
                    candle: closed,
                })
                &&& !short ==> actions[0] == (ActionView::Buffer {
                    interval: before.target@,
                    candle: closed,
                })
                &&& actions[1] == (ActionView::Forget { interval: before.target@ })
            }
            &&& actions.len() == 3 <==> (before.aggregator.open_candle() matches Some(current)
                && after.aggregator.open_candle() matches Some(open) && current.open_time
                < open.open_time)
        },
{
    if before.symbol@ == symbol {
        let (quote, r) = choose|quote: Double, r: Result<Option<Candle>, AggregationError>|
            trade.quoted(calc, quote) && #[trigger] before.aggregator.advances(
                trade.as_candle(quote),
                calc,
                r,
                after.aggregator,
            ) && actions == trade_aftermath(after.aggregator, before.target@, r);
        assert(before.aggregator.advances(trade.as_candle(quote), calc, r, after.aggregator));
    }
}

/// The parts of the rolls come one after the other, nothing between them.
pub proof fn parts_come_in_turn(parts: Seq<Seq<ActionView>>, more: Seq<Seq<ActionView>>)
    ensures
        parts.len() == 1 ==> in_turn(parts) == parts[0],
        in_turn(parts + more) == in_turn(parts) + in_turn(more),
    decreases more.len(),
{
    if parts.len() == 1 {
        assert(in_turn(parts.drop_last()) =~= Seq::<ActionView>::empty());
        assert(in_turn(parts) =~= parts[0]);
    }
    if more.len() == 0 {
        assert(parts + more =~= parts);
        assert(in_turn(parts) + in_turn(more) =~= in_turn(parts));
    } else {
        parts_come_in_turn(parts, more.drop_last());
        assert((parts + more).drop_last() =~= parts + more.drop_last());
        assert(in_turn(parts + more) =~= in_turn(parts) + in_turn(more));
    }
}

/// A closed candle of the stream is buffered under its own interval and its
/// open one forgotten, before the rolls take it in. It changes no roll that
/// trades feed, and a trade changes none that candles feed.
pub proof fn closed_candles_come_first<F: Fn(Calc) -> Double>(
    before: BinanceWorker,
    event: MarketEvent,
    now_ms: i64,
    calc: F,
    after: BinanceWorker,
    actions: Seq<ActionView>,
)
    requires
        handled(before, event, now_ms, calc, after, actions),
    ensures
        event matches MarketEvent::ClosedKline { symbol, interval, candle } ==> {
            &&& after.trade_aggregators == before.trade_aggregators
            &&& parsed_interval(interval@) matches Some(source) ==> {
                &&& actions.len() >= 2
                &&& actions[0] == (ActionView::Buffer { interval: source.name(), candle })
                &&& actions[1] == (ActionView::Forget { interval: source.name() })
                &&& after.kline_aggregators@.len() == before.kline_aggregators@.len()
            }
        },
        event matches MarketEvent::AggTrade { symbol, trade } ==> {
            &&& after.kline_aggregators == before.kline_aggregators
            &&& after.trade_aggregators@.len() == before.trade_aggregators@.len()
        },
{
}

/// Every target whose interval can be read has its roll, and no other has one.
pub proof fn readable_targets_get_a_roll(rows: Seq<Seq<Seq<char>>>, row: Seq<Seq<char>>)
    ensures
        readable(rows).contains(row) <==> rows.contains(row) && parsed_interval(row.last()) is Some,
{
    crate::series::filter_keeps(rows, |r: Seq<Seq<char>>| parsed_interval(r.last()) is Some);
}

/// Every trade has its price held against the alerts, at the time of the trade,
/// and every closed candle of a known interval its closing price, now.
pub proof fn prices_are_held_against_the_alerts(
    event: MarketEvent,
    now_ms: i64,
    r: Option<PriceSeen>,
)
    requires
        call_ensures(BinanceWorker::price_to_check, (&event, now_ms), r),
    ensures
        r is Some ==> event is AggTrade || event is ClosedKline,
        event matches MarketEvent::AggTrade { symbol, trade } ==> (r matches Some(seen)
            && seen.price == trade.price && seen.at_ms == trade.timestamp_ms && seen.symbol@
            == uppercase(symbol@)),
        event matches MarketEvent::ClosedKline { symbol, interval, candle } ==> (
        parsed_interval(interval@) is Some || interval@ == "1m"@ ==> (r matches Some(seen)
            && seen.price == candle.close && seen.at_ms == now_ms && seen.symbol@ == uppercase(
            symbol@,
        ))) && (parsed_interval(interval@) is None && interval@ != "1m"@ ==> r is None),
{
}

/// A roll that was emptied has no open candle and cuts its buckets as before.
pub proof fn emptied_rolls_keep_their_buckets(before: KlineRoll, after: KlineRoll, t: int)
    requires
        emptied(before, after),
    ensures
        after.aggregator.open_candle() is None,
        after.aggregator.bucket(t) == before.aggregator.bucket(t),
        after.aggregator.span() == before.aggregator.span(),
        after.symbol@ == before.symbol@ && after.base@ == before.base@ && after.target@
            == before.target@,
{
}

} // verus!
