use crypto_candlestick::binance::connection::{
    connect_failure, react, Following, Incoming, Reconnect,
};
use crypto_candlestick::binance::seed::{can_step, fits, seed_limit, stored_bucket_anchor};
use crypto_candlestick::binance::types::MarketEvent;
use crypto_candlestick::binance::worker::{BinanceWorker, StoreAction, SubscriptionPlan};
use crypto_candlestick::config::{RealtimeSource, SymbolSubscription};
use crypto_candlestick::domain::candle::Candle;
use crypto_candlestick::domain::interval::Interval;
use crypto_candlestick::domain::number::{Calc, Double};
use crypto_candlestick::engine::aggregator::{Aggregator, TradeTick};
use crypto_candlestick::memory::{ClosedKlineBuffer, LatestCache, MemorySeriesStore};
use crypto_candlestick::runtime_health::RuntimeHealth;
use crypto_candlestick::storage::sqlite::StoredKline;

const NOW_MS: i64 = 1_788_687_118_271;

fn d(value: f64) -> Double {
    Double::from_bits(value.to_bits())
}

fn calc(step: Calc) -> Double {
    let f = |value: Double| f64::from_bits(value.bits);
    d(match step {
        Calc::Start => std::iter::empty::<f64>().sum::<f64>(),
        Calc::Count(n) => n as f64,
        Calc::Add(a, b) => f(a) + f(b),
        Calc::Subtract(a, b) => f(a) - f(b),
        Calc::Multiply(a, b) => f(a) * f(b),
        Calc::Divide(a, b) => f(a) / f(b),
        Calc::Absolute(a) => f(a).abs(),
        Calc::Negate(a) => -f(a),
    })
}

struct Scene {
    worker: BinanceWorker,
    latest: LatestCache,
    memory_series: MemorySeriesStore,
    closed_buffer: ClosedKlineBuffer,
}

impl Scene {
    fn new(symbol: &str, intervals: &[&str]) -> Scene {
        let plan = SubscriptionPlan::from_subscriptions(vec![SymbolSubscription::new(
            symbol,
            intervals
                .iter()
                .map(|name| Interval::parse(name).unwrap())
                .collect(),
            RealtimeSource::Auto,
        )]);
        Scene {
            worker: BinanceWorker::new(plan, 1_500, false, usize::MAX),
            latest: LatestCache::default(),
            memory_series: MemorySeriesStore::default(),
            closed_buffer: ClosedKlineBuffer::default(),
        }
    }

    fn handle(&mut self, symbol: &str, event: MarketEvent, now_ms: i64) {
        assert!(self.worker.can_handle(&event));
        for action in self.worker.handle_event(&event, now_ms, &calc) {
            match action {
                StoreAction::Buffer { interval, candle } => {
                    let rows = self.closed_buffer.upsert(symbol, &interval, candle);
                    assert!(!self.worker.flush_due(rows));
                }
                StoreAction::Remember { interval, candle } => {
                    self.memory_series.push_closed(symbol, &interval, candle);
                }
                StoreAction::Forget { interval } => self.latest.remove(symbol, &interval),
                StoreAction::Show { interval, candle } => {
                    self.latest.upsert(symbol, &interval, candle);
                }
            }
        }
    }

    fn trade(&mut self, symbol: &str, timestamp_ms: i64, price: f64, quantity: f64) {
        self.handle(
            symbol,
            MarketEvent::AggTrade {
                symbol: symbol.to_string(),
                trade: TradeTick::new(timestamp_ms, d(price), d(quantity)),
            },
            NOW_MS,
        );
    }
}

fn minute(bucket_start: i64, index: i64) -> Candle {
    let open_time = bucket_start + index * 60_000;
    Candle {
        open_time,
        close_time: open_time + 59_999,
        open: d(100.0 + index as f64),
        high: d(102.0 + index as f64),
        low: d(99.0),
        close: d(101.0 + index as f64),
        volume: d(10.0),
        quote_volume: d(1_000.0),
        trade_count: 10,
        is_closed: true,
    }
}

fn stored(symbol: &str, interval: &str, candle: Candle) -> StoredKline {
    StoredKline {
        symbol: symbol.to_string(),
        interval: interval.to_string(),
        candle,
    }
}

#[test]
fn closed_one_minute_klines_refresh_higher_interval_once_per_minute() {
    let mut scene = Scene::new("BTCUSDT", &["5"]);

    scene.handle(
        "BTCUSDT",
        MarketEvent::OpenKline {
            symbol: "BTCUSDT".to_string(),
            interval: "1".to_string(),
            candle: Candle {
                open_time: 0,
                close_time: 59_999,
                open: d(1.0),
                high: d(999.0),
                low: d(1.0),
                close: d(999.0),
                volume: d(999.0),
                quote_volume: d(999.0),
                trade_count: 999,
                is_closed: false,
            },
        },
        NOW_MS,
    );
    assert!(scene.latest.get("BTCUSDT", "5").is_none());

    let bucket_start = Interval::parse("5").unwrap().bucket_start_ms(NOW_MS);
    for index in 0..2 {
        scene.handle(
            "BTCUSDT",
            MarketEvent::ClosedKline {
                symbol: "BTCUSDT".to_string(),
                interval: "1".to_string(),
                candle: minute(bucket_start, index),
            },
            NOW_MS,
        );
    }

    assert!(scene
        .closed_buffer
        .query("BTCUSDT", "5", None, None, 10)
        .is_empty());
    assert_eq!(
        scene
            .closed_buffer
            .query("BTCUSDT", "1", None, None, 10)
            .len(),
        2
    );

    let preview = scene.latest.get("BTCUSDT", "5").unwrap();
    assert_eq!(preview.open_time, bucket_start);
    assert_eq!(preview.close_time, bucket_start + 299_999);
    assert_eq!(preview.open, d(100.0));
    assert_eq!(preview.high, d(103.0));
    assert_eq!(preview.low, d(99.0));
    assert_eq!(preview.close, d(102.0));
    assert_eq!(preview.volume, d(20.0));
    assert_eq!(preview.quote_volume, d(2_000.0));
    assert_eq!(preview.trade_count, 20);
    assert!(!preview.is_closed);
}

#[test]
fn the_last_minute_closes_the_higher_interval() {
    let mut scene = Scene::new("BTCUSDT", &["5"]);
    let bucket_start = Interval::parse("5").unwrap().bucket_start_ms(NOW_MS);
    for index in 0..5 {
        // The exchange's own name of the interval counts too.
        scene.handle(
            "BTCUSDT",
            MarketEvent::ClosedKline {
                symbol: "BTCUSDT".to_string(),
                interval: "1m".to_string(),
                candle: minute(bucket_start, index),
            },
            NOW_MS,
        );
    }
    let closed = scene.closed_buffer.query("BTCUSDT", "5", None, None, 10);
    assert_eq!(closed.len(), 1);
    assert_eq!(closed[0].candle.open_time, bucket_start);
    assert_eq!(closed[0].candle.close, d(105.0));
    assert_eq!(closed[0].candle.volume, d(50.0));
    assert!(closed[0].candle.is_closed);
    assert!(scene.latest.get("BTCUSDT", "5").is_none());
    assert_eq!(scene.closed_buffer.len(), 6);

    // A minute of a later bucket hands the open candle out.
    scene.handle(
        "BTCUSDT",
        MarketEvent::ClosedKline {
            symbol: "BTCUSDT".to_string(),
            interval: "1m".to_string(),
            candle: minute(bucket_start, 5),
        },
        NOW_MS + 600_000,
    );
    let preview = scene.latest.get("BTCUSDT", "5").unwrap();
    // Its time has passed, so it is not shown as open.
    assert!(preview.is_closed);
    // Names that name no interval are passed over.
    scene.handle(
        "BTCUSDT",
        MarketEvent::ClosedKline {
            symbol: "BTCUSDT".to_string(),
            interval: "1x".to_string(),
            candle: minute(bucket_start, 6),
        },
        NOW_MS,
    );
    scene.handle("BTCUSDT", MarketEvent::Ignored, NOW_MS);
    assert_eq!(scene.closed_buffer.len(), 7);
    scene.worker.reset_kline_aggregators();
    assert_eq!(scene.worker.kline_aggregators[0].aggregator.current(), None);
}

#[test]
fn trade_source_builds_and_buffers_minute_klines() {
    let mut scene = Scene::new("BTCUSDT", &["15S", "1"]);

    scene.trade("BTCUSDT", 1_000, 100.0, 2.0);
    scene.trade("BTCUSDT", 61_000, 101.0, 3.0);

    let closed = scene.closed_buffer.query("BTCUSDT", "1", None, None, 10);
    assert_eq!(closed.len(), 1);
    assert_eq!(closed[0].candle.open_time, 0);
    assert_eq!(closed[0].candle.close, d(100.0));
    assert_eq!(closed[0].candle.volume, d(2.0));

    let current = scene.latest.get("BTCUSDT", "1").unwrap();
    assert_eq!(current.open_time, 60_000);
    assert_eq!(current.close, d(101.0));
    assert_eq!(current.volume, d(3.0));
    assert!(!current.is_closed);

    // Candles below a minute stay in memory.
    let seconds = scene.memory_series.query("BTCUSDT", "15S", None, None, 10);
    assert_eq!(seconds.len(), 1);
    assert!(scene
        .closed_buffer
        .query("BTCUSDT", "15S", None, None, 10)
        .is_empty());
    // Trades of other symbols change nothing.
    scene.trade("ETHUSDT", 121_000, 5.0, 1.0);
    assert_eq!(scene.latest.get("BTCUSDT", "1"), Some(current));
    assert!(scene.latest.get("ETHUSDT", "1").is_none());
}

#[test]
fn trade_source_seeds_current_long_interval_before_live_trades() {
    let interval = Interval::parse("720").unwrap();
    let bucket_start = interval.bucket_start_ms(NOW_MS);
    let bucket_end = bucket_start + interval.as_millis() as i64 - 1;
    let rows = vec![stored(
        "XAUUSDT",
        "720",
        Candle {
            open_time: bucket_start,
            close_time: bucket_end,
            open: d(4_448.52),
            high: d(4_514.81),
            low: d(4_442.95),
            close: d(4_497.70),
            volume: d(100.0),
            quote_volume: d(449_770.0),
            trade_count: 10,
            is_closed: false,
        },
    )];

    let mut scene = Scene::new("XAUUSDT", &["10S", "720"]);
    for roll in scene.worker.trade_aggregators.iter_mut() {
        let Some(base) = roll.seed_interval() else {
            assert_eq!(roll.target, "10S");
            continue;
        };
        assert_eq!(base, interval);
        let from = roll.aggregator.bucket_start_ms(NOW_MS);
        assert_eq!(from, bucket_start);
        assert_eq!(seed_limit(from, NOW_MS, base.as_millis()), 1);
        let shown = roll.seed(&rows, &calc).unwrap();
        assert!(!shown.is_closed);
        scene.latest.upsert(&roll.symbol, &roll.target, shown);
    }
    scene.trade("XAUUSDT", NOW_MS, 4_497.73, 1.0);

    let current = scene.latest.get("XAUUSDT", "720").unwrap();
    assert_eq!(current.open, d(4_448.52));
    assert_eq!(current.high, d(4_514.81));
    assert_eq!(current.low, d(4_442.95));
    assert_eq!(current.close, d(4_497.73));
    assert_eq!(current.volume, d(101.0));

    scene.trade("XAUUSDT", bucket_end + 1, 4_500.0, 2.0);

    let closed = scene.closed_buffer.query("XAUUSDT", "720", None, None, 10);
    assert_eq!(closed.len(), 1);
    assert_eq!(closed[0].candle.open, d(4_448.52));
    assert_eq!(closed[0].candle.high, d(4_514.81));
    assert_eq!(closed[0].candle.low, d(4_442.95));
}

fn three_day_rows(symbol: &str, current_open: i64, interval: Interval) -> Vec<StoredKline> {
    (-2..=0)
        .map(|index: i64| {
            let open_time = current_open + index * interval.as_millis() as i64;
            stored(
                symbol,
                "3D",
                Candle {
                    open_time,
                    close_time: open_time + interval.as_millis() as i64 - 1,
                    open: d(100.0 + index as f64),
                    high: d(110.0),
                    low: d(90.0),
                    close: d(105.0),
                    volume: d(10.0),
                    quote_volume: d(1_000.0),
                    trade_count: 10,
                    is_closed: index < 0,
                },
            )
        })
        .collect()
}

#[test]
fn trade_source_uses_stored_symbol_anchor_for_three_day_kline() {
    let interval = Interval::parse("3D").unwrap();
    let local_bucket_start = interval.bucket_start_ms(NOW_MS);
    let symbol_anchor = local_bucket_start + Interval::Days(1).as_millis() as i64;
    let current_open = interval.bucket_start_ms_with_anchor(NOW_MS, symbol_anchor);
    let rows = three_day_rows("BTCUSDT", current_open, interval);

    let mut scene = Scene::new("BTCUSDT", &["10S", "3D"]);
    for roll in scene.worker.trade_aggregators.iter_mut() {
        let target = Interval::parse(&roll.target).unwrap();
        if let Some(anchor) = stored_bucket_anchor(target, &rows) {
            roll.aggregator.set_bucket_anchor_ms(anchor);
        }
        if roll.seed_interval().is_some() {
            let from = roll.aggregator.bucket_start_ms(NOW_MS);
            let kept = rows
                .iter()
                .filter(|row| row.candle.open_time >= from && row.candle.open_time <= NOW_MS)
                .cloned()
                .collect();
            roll.seed(&kept, &calc);
        }
    }
    scene.trade("BTCUSDT", NOW_MS, 106.0, 1.0);

    let current = scene.latest.get("BTCUSDT", "3D").unwrap();
    assert_ne!(current_open, local_bucket_start);
    assert_eq!(current.open_time, current_open);
    assert_eq!(current.open, d(100.0));
    assert_eq!(current.close, d(106.0));
}

#[test]
fn kline_source_uses_stored_symbol_anchor_for_three_day_kline() {
    let interval = Interval::parse("3D").unwrap();
    let local_bucket_start = interval.bucket_start_ms(NOW_MS);
    let symbol_anchor = local_bucket_start + 2 * Interval::Days(1).as_millis() as i64;
    let current_open = interval.bucket_start_ms_with_anchor(NOW_MS, symbol_anchor);
    let rows = three_day_rows("QQQUSDT", current_open, interval);

    let mut scene = Scene::new("QQQUSDT", &["1", "3D"]);
    for roll in scene.worker.kline_aggregators.iter_mut() {
        let target = Interval::parse(&roll.target).unwrap();
        if let Some(anchor) = stored_bucket_anchor(target, &rows) {
            roll.aggregator.set_bucket_anchor_ms(anchor);
        }
    }
    scene.handle(
        "QQQUSDT",
        MarketEvent::ClosedKline {
            symbol: "QQQUSDT".to_string(),
            interval: "1".to_string(),
            candle: Candle {
                open_time: NOW_MS.div_euclid(60_000) * 60_000,
                close_time: NOW_MS.div_euclid(60_000) * 60_000 + 59_999,
                open: d(106.0),
                high: d(107.0),
                low: d(105.0),
                close: d(106.5),
                volume: d(1.0),
                quote_volume: d(106.5),
                trade_count: 1,
                is_closed: true,
            },
        },
        NOW_MS,
    );

    let current = scene.latest.get("QQQUSDT", "3D").unwrap();
    assert_ne!(current_open, local_bucket_start);
    assert_eq!(current.open_time, current_open);
    assert_eq!(current.open, d(106.0));
}

#[test]
fn kline_rolls_start_from_days_and_minutes() {
    let mut scene = Scene::new("BTCUSDT", &["2D"]);
    let roll = &mut scene.worker.kline_aggregators[0];
    assert!(roll.starts_from_days());
    let day = 86_400_000i64;
    let now_ms = 2 * day + day + 90_000;
    let start = roll.aggregator.bucket_start_ms(now_ms);
    assert_eq!(start, 2 * day);
    let mut first = minute(2 * day, 0);
    first.close_time = 3 * day - 1;
    let mut running = minute(3 * day, 0);
    running.close_time = 4 * day - 1;
    let days = vec![stored("BTCUSDT", "D", first), stored("BTCUSDT", "D", running)];
    let minute_start = roll.seed_days(&days, start, now_ms, &calc);
    assert_eq!(minute_start, 3 * day);
    assert_eq!(seed_limit(minute_start, now_ms, 60_000), 2);
    assert_eq!(seed_limit(now_ms + 1, now_ms, 60_000), 1);
    let minutes = vec![
        stored("BTCUSDT", "1", minute(3 * day, 0)),
        stored("BTCUSDT", "1", minute(3 * day, 1)),
    ];
    let shown = roll.seed_minutes(&minutes, now_ms, &calc).unwrap();
    assert_eq!(shown.open_time, 2 * day);
    assert_eq!(shown.volume, d(20.0));
    assert_eq!(shown.trade_count, 20);
    assert!(!shown.is_closed);
    assert_eq!(stored_bucket_anchor(Interval::Days(1), &minutes), None);
    assert_eq!(stored_bucket_anchor(Interval::Days(3), &Vec::new()), None);
}

#[test]
fn unsupported_intervals_have_no_roll() {
    let plan = SubscriptionPlan::from_subscriptions(vec![SymbolSubscription::new(
        "BTCUSDT",
        vec![Interval::Minutes(7), Interval::Minutes(5)],
        RealtimeSource::Kline1m,
    )]);
    let worker = BinanceWorker::new(plan, 10, true, 3);
    let targets: Vec<&str> = worker
        .kline_aggregators
        .iter()
        .map(|roll| roll.target.as_str())
        .collect();
    assert_eq!(targets, vec!["5"]);
    assert!(worker.trade_aggregators.is_empty());
    assert!(worker.flush_due(3));
    assert!(!worker.flush_due(2));
    assert!(worker.catch_up_on_first_connect);
    assert_eq!(worker.sync_lookback_bars, 10);
}

#[test]
fn waits_double_and_start_over_with_a_connection() {
    let mut state = Reconnect::new(false);
    let waits: Vec<u64> = (0..7).map(|_| state.wait_secs()).collect();
    assert_eq!(waits, vec![1, 2, 4, 8, 16, 30, 30]);
    assert!(!state.connected());
    assert_eq!(state.wait_secs(), 1);
    assert!(state.connected());
    assert!(Reconnect::new(true).connected());
}

#[test]
fn messages_lead_to_reactions() {
    let text = react(&Incoming::Text);
    assert!(text.alive && text.decode && text.reconnect.is_none());
    let heartbeat = react(&Incoming::Heartbeat);
    assert!(heartbeat.alive && !heartbeat.decode && heartbeat.reconnect.is_none());
    let other = react(&Incoming::Other);
    assert!(!other.alive && !other.decode && other.reconnect.is_none());
    for (incoming, reason) in [
        (Incoming::Close, "websocket closed"),
        (Incoming::Ended, "websocket stream ended"),
        (Incoming::Idle, "websocket idle timeout"),
        (
            Incoming::ReadFailed("x".to_string()),
            "websocket read failed: x",
        ),
    ] {
        let reaction = react(&incoming);
        assert!(!reaction.alive && !reaction.decode);
        assert_eq!(reaction.reconnect.as_deref(), Some(reason));
    }
    assert_eq!(connect_failure("y"), "connect failed: y");
}

#[test]
fn prices_to_check_come_from_closed_candles_and_trades() {
    let kline = |interval: &str| MarketEvent::ClosedKline {
        symbol: "btcusdt".to_string(),
        interval: interval.to_string(),
        candle: minute(0, 0),
    };
    let seen = BinanceWorker::price_to_check(&kline("1m"), 5).unwrap();
    assert_eq!(seen.symbol, "BTCUSDT");
    assert_eq!(seen.price, d(101.0));
    assert_eq!(seen.at_ms, 5);
    assert!(BinanceWorker::price_to_check(&kline("?"), 5).is_none());
    assert!(BinanceWorker::price_to_check(&kline("5"), 5).is_some());
    assert!(BinanceWorker::price_to_check(&kline("5m"), 5).is_none());
    assert!(BinanceWorker::price_to_check(&kline("1h"), 5).is_none());
    let trade = MarketEvent::AggTrade {
        symbol: "ethusdt".to_string(),
        trade: TradeTick::new(7, d(3.0), d(1.0)),
    };
    let seen = BinanceWorker::price_to_check(&trade, 5).unwrap();
    assert_eq!(seen.symbol, "ETHUSDT");
    assert_eq!(seen.price, d(3.0));
    assert_eq!(seen.at_ms, 7);
    let open = MarketEvent::OpenKline {
        symbol: "btcusdt".to_string(),
        interval: "1m".to_string(),
        candle: minute(0, 0),
    };
    assert!(BinanceWorker::price_to_check(&open, 5).is_none());
    assert!(BinanceWorker::price_to_check(&MarketEvent::Ignored, 5).is_none());
}

#[test]
fn stored_candles_are_checked_before_they_are_taken_in() {
    let candle = |open_time: i64, trade_count: u64| Candle {
        open_time,
        close_time: open_time + 59_999,
        open: d(1.0),
        high: d(1.0),
        low: d(1.0),
        close: d(1.0),
        volume: d(1.0),
        quote_volume: d(1.0),
        trade_count,
        is_closed: true,
    };
    let five = Aggregator::new(Interval::parse("5").unwrap());
    assert!(fits(&five, &Vec::new()));
    assert!(fits(&five, &vec![candle(0, u64::MAX), candle(300_000, u64::MAX)]));
    assert!(!fits(&five, &vec![candle(0, u64::MAX), candle(60_000, 1)]));
    // A candle of an earlier bucket is passed over and adds nothing.
    assert!(fits(&five, &vec![candle(300_000, u64::MAX), candle(0, 1)]));
    let mut late = candle(0, 1);
    late.open_time = i64::MAX;
    assert!(!fits(&five, &vec![late]));
}

#[test]
fn a_quiet_stream_is_told_as_stale() {
    let mut health = RuntimeHealth::default();
    health.mark_connected();
    health.mark_message_at(1_000);
    let reaction = react(&Incoming::Idle);
    health.mark_reconnecting(reaction.reconnect.unwrap());
    let quiet = health.websocket_snapshot(61_500);
    assert!(!quiet.ok && !quiet.connected);
    assert_eq!(quiet.last_error.as_deref(), Some("websocket idle timeout"));
    assert_eq!(quiet.reason, Some("websocket message stream is stale"));
    health.mark_reconnecting(connect_failure("refused"));
    assert_eq!(
        health.websocket_snapshot(63_000).reason,
        Some("websocket is disconnected")
    );
}

#[test]
fn candles_of_streams_that_are_not_followed_are_dropped() {
    let plan = SubscriptionPlan::from_subscriptions(vec![SymbolSubscription::new(
        "BTCUSDT",
        vec![Interval::parse("15").unwrap()],
        RealtimeSource::Auto,
    )]);
    let mut worker = BinanceWorker::new(plan, 10, true, 3);
    for (interval, actions) in [("5m", 0), ("1h", 0), ("1d", 2), ("5", 2), ("1m", 3)] {
        let event = MarketEvent::ClosedKline {
            symbol: "BTCUSDT".to_string(),
            interval: interval.to_string(),
            candle: minute(0, 0),
        };
        assert!(worker.can_handle(&event));
        assert_eq!(worker.handle_event(&event, 0, &calc).len(), actions);
    }
}

#[test]
fn every_attempt_goes_to_one_address() {
    let plan = SubscriptionPlan::from_subscriptions(vec![SymbolSubscription::new(
        "BTCUSDT",
        vec![Interval::parse("5").unwrap()],
        RealtimeSource::Auto,
    )]);
    let mut following = Following::start(&plan, false).unwrap();
    assert_eq!(
        following.url,
        "wss://fstream.binance.com/market/stream?streams=btcusdt@kline_1m"
    );
    let waits: Vec<u64> = (0..3).map(|_| following.wait_secs()).collect();
    assert_eq!(waits, vec![1, 2, 4]);
    assert!(!following.connected());
    assert!(following.connected());
    assert_eq!(following.wait_secs(), 1);
    assert_eq!(following.url, plan.stream_url());
    assert!(Following::start(&SubscriptionPlan::from_subscriptions(vec![]), true).is_none());
}

#[test]
fn steps_are_tested_before_they_are_counted() {
    assert!(can_step(0, 60_000, 60_000));
    assert!(can_step(i64::MAX, i64::MIN, 1));
    assert!(!can_step(i64::MIN, 0, 1));
    assert!(!can_step(0, 1, 0));
    assert!(can_step(0, i64::MAX, 1));
}
