use crypto_candlestick::domain::candle::Candle;
use crypto_candlestick::domain::interval::Interval;
use crypto_candlestick::domain::number::Double;
use crypto_candlestick::http::handlers::{
    fetch_limit, health, health_summary, is_held_in_memory, keep_latest_contiguous_rows,
    kline_series, latest_lag_intervals_at, merge_kline_rows, query_kline_rows, GuailiQuery,
    KlineQuery, SeriesHealth,
};
use crypto_candlestick::http::health::{
    can_tell_lag, check_series, consecutive_bars_from_latest, deep_health,
    max_allowed_lag_intervals, newest_first,
};
use crypto_candlestick::http::queries::{
    guaili_calc_limit, guaili_config_from_query, guaili_request, guaili_series, kline_request,
    ma_type_name, parse_intervals, parse_ma_type, parse_symbols,
};
use crypto_candlestick::http::routes::{
    alert_not_found, internal_error, HealthTarget, BAD_REQUEST,
};
use crypto_candlestick::indicators::guaili::{GuailiPoint, MaType};
use crypto_candlestick::memory::{ClosedKlineBuffer, LatestCache, MemorySeriesStore};
use crypto_candlestick::runtime_health::{RuntimeHealth, WebSocketHealth};
use crypto_candlestick::storage::sqlite::{
    closed_by_now, kline_query_sql, prunes, StoredKline, DEFAULT_RETENTION_BARS,
};

fn d(value: f64) -> Double {
    Double::from_bits(value.to_bits())
}

fn candle(open_time: i64, length: i64, is_closed: bool) -> Candle {
    Candle {
        open_time,
        close_time: open_time + length - 1,
        open: d(100.0),
        high: d(101.0),
        low: d(99.0),
        close: d(100.5),
        volume: d(12.5),
        quote_volume: d(1_250.0),
        trade_count: 3,
        is_closed,
    }
}

fn row(open_time: i64, close: f64) -> StoredKline {
    let mut candle = candle(open_time, 60_000, true);
    candle.close = d(close);
    StoredKline {
        symbol: "BTCUSDT".to_string(),
        interval: "1".to_string(),
        candle,
    }
}

fn rows(times: &[i64]) -> Vec<StoredKline> {
    times.iter().map(|time| row(*time, 1.0)).collect()
}

fn times(rows: &[StoredKline]) -> Vec<i64> {
    rows.iter().map(|row| row.candle.open_time).collect()
}

fn minute() -> Interval {
    Interval::parse("1").unwrap()
}

fn query(
    stored: &Vec<StoredKline>,
    buffered: &Vec<StoredKline>,
    latest: Option<Candle>,
    limit: u32,
    closed_only: bool,
) -> Vec<StoredKline> {
    query_kline_rows(
        "btcusdt",
        minute(),
        stored,
        buffered,
        latest,
        None,
        None,
        limit,
        closed_only,
    )
}

#[test]
fn calculates_latest_lag_from_current_bucket_start() {
    let interval = Interval::parse("1").unwrap();
    let now_ms = 1779105961000; // 2026-05-19 20:06:01 +08:00
    let latest_open_time = 1779105720000; // 2026-05-19 20:02:00 +08:00

    assert_eq!(
        latest_lag_intervals_at(&interval, latest_open_time, now_ms),
        4
    );
}

#[test]
fn lag_is_zero_for_the_open_bucket_and_later() {
    assert_eq!(latest_lag_intervals_at(&minute(), 60_000, 119_999), 0);
    assert_eq!(latest_lag_intervals_at(&minute(), 180_000, 119_999), 0);
    assert_eq!(latest_lag_intervals_at(&minute(), 0, 119_999), 1);
    assert!(can_tell_lag(&minute(), 0, 119_999));
    assert!(!can_tell_lag(&minute(), i64::MIN, 119_999));
    assert!(can_tell_lag(&minute(), i64::MAX, -119_999));
    assert!(!can_tell_lag(&Interval::Minutes(0), 0, 0));
}

#[test]
fn a_lag_beyond_32_bits_is_cut() {
    let second = Interval::Seconds(1);
    assert!(can_tell_lag(&second, 0, 5_000_000_000_000_000));
    assert_eq!(
        latest_lag_intervals_at(&second, 0, 5_000_000_000_000_000),
        658_067_456
    );
}

#[test]
fn health_endpoint_returns_ok() {
    assert!(health().ok);
}

#[test]
fn deep_health_reports_consecutive_closed_klines_from_latest() {
    let stored = rows(&[0, 60_000, 180_000, 240_000]);
    let target = HealthTarget {
        symbol: "BTCUSDT".to_string(),
        interval: "1".to_string(),
    };
    let series = check_series(&target, &stored, &Vec::new(), 300_000).unwrap();
    let body = deep_health(RuntimeHealth::default().websocket_snapshot(300_000), vec![series]);

    assert!(body.ok);
    assert_eq!(body.series[0].symbol, "BTCUSDT");
    assert_eq!(body.series[0].interval, "1");
    assert_eq!(body.series[0].latest_open_time, Some(240_000));
    assert_eq!(body.series[0].consecutive_bars_from_latest, 2);
    assert_eq!(body.series[0].latest_lag_intervals, Some(1));
    assert_eq!(body.series[0].checked_bars, 4);
    assert_eq!(body.series[0].source, "sqlite");
    assert_eq!(body.series[0].reason, None);
}

#[test]
fn stale_and_empty_series_are_not_well() {
    let target = |interval: &str| HealthTarget {
        symbol: "btcusdt".to_string(),
        interval: interval.to_string(),
    };
    // Two intervals behind are allowed, three are not.
    let stored = rows(&[0]);
    let two = check_series(&target("1"), &stored, &Vec::new(), 120_000).unwrap();
    assert!(two.ok);
    let three = check_series(&target("1"), &stored, &Vec::new(), 180_000).unwrap();
    assert!(!three.ok);
    assert_eq!(three.reason, Some("latest candle is stale"));
    assert_eq!(three.symbol, "BTCUSDT");
    // A row that waits to be written counts.
    let fresh = check_series(&target("1"), &stored, &rows(&[60_000]), 180_000).unwrap();
    assert!(fresh.ok);
    assert_eq!(fresh.consecutive_bars_from_latest, 2);

    let empty = check_series(&target("15s"), &Vec::new(), &stored, 0).unwrap();
    assert!(!empty.ok);
    assert_eq!(empty.reason, Some("no closed candles"));
    assert_eq!(empty.source, "memory");
    assert_eq!(empty.interval, "15S");
    assert_eq!(empty.latest_lag_intervals, None);
    assert_eq!(empty.consecutive_bars_from_latest, 0);

    let refused = check_series(&target("7"), &stored, &Vec::new(), 0).unwrap_err();
    assert_eq!(refused.status, BAD_REQUEST);
    assert_eq!(refused.message, "invalid interval: 7");

    assert_eq!(max_allowed_lag_intervals(&minute()), 2);
    assert_eq!(max_allowed_lag_intervals(&Interval::Seconds(15)), 4);
    assert_eq!(times(&stored), vec![0]);
    assert_eq!(consecutive_bars_from_latest(&newest_first(&rows(&[0, 60_000, 120_000]), 2), 60_000), 2);
    let extreme = vec![
        candle(i64::MIN + 1, 1, true),
        candle(0, 1, true),
    ];
    assert_eq!(consecutive_bars_from_latest(&extreme, 60_000), 1);
}

fn series(symbol: &str, ok: bool, reason: Option<&'static str>) -> SeriesHealth {
    SeriesHealth {
        symbol: symbol.to_string(),
        interval: "1".to_string(),
        latest_open_time: None,
        latest_lag_intervals: None,
        consecutive_bars_from_latest: 0,
        checked_bars: 0,
        source: "memory",
        ok,
        reason,
    }
}

#[test]
fn summary_counts_symbols_and_reasons_in_order() {
    let deep = deep_health(
        WebSocketHealth::default(),
        vec![
            series("ETH", true, None),
            series("BTC", false, Some("stale")),
            series("ETH", false, Some("none")),
            series("BTC", false, Some("stale")),
            series("ADA", true, Some("unused")),
        ],
    );
    assert!(!deep.ok);
    let summary = health_summary(&deep, 7);
    assert!(!summary.ok);
    assert!(summary.websocket_ok);
    assert_eq!(summary.total_series, 5);
    assert_eq!(summary.ok_series, 2);
    assert_eq!(summary.bad_series, 3);
    assert_eq!(summary.server_time, 7);
    let symbols: Vec<(&str, usize, usize, usize)> = summary
        .symbols
        .iter()
        .map(|item| (item.symbol.as_str(), item.total, item.ok, item.bad))
        .collect();
    assert_eq!(
        symbols,
        vec![("ADA", 1, 1, 0), ("BTC", 2, 0, 2), ("ETH", 2, 1, 1)]
    );
    let reasons: Vec<(&str, usize)> = summary
        .reasons
        .iter()
        .map(|item| (item.reason.as_str(), item.count))
        .collect();
    assert_eq!(reasons, vec![("none", 1), ("stale", 2)]);
}

#[test]
fn klines_endpoint_returns_persisted_rows() {
    let stored = vec![StoredKline {
        symbol: "BTCUSDT".to_string(),
        interval: "1".to_string(),
        candle: candle(1_000, 1_000, true),
    }];

    let body = query(&stored, &Vec::new(), None, 10, false);
    assert_eq!(body.len(), 1);
    assert_eq!(body[0].symbol, "BTCUSDT");
    assert_eq!(body[0].interval, "1");
    assert_eq!(body[0].candle.open_time, 1000);

    let series = kline_series(&minute(), body);
    assert_eq!(series.interval, "1");
    assert_eq!(series.count, 1);
    assert_eq!(series.start_time, Some(1_000));
    assert_eq!(series.end_time, Some(1_000));
    let empty = kline_series(&minute(), Vec::new());
    assert_eq!((empty.start_time, empty.end_time, empty.count), (None, None, 0));
}

#[test]
fn klines_endpoint_appends_latest_open_candle_from_memory() {
    let mut latest = LatestCache::default();
    let stored = vec![StoredKline {
        symbol: "BTCUSDT".to_string(),
        interval: "1".to_string(),
        candle: candle(0, 60_000, true),
    }];
    latest.upsert("BTCUSDT", "1", candle(60_000, 60_000, false));

    let body = query(&stored, &Vec::new(), latest.get("BTCUSDT", "1"), 10, false);
    assert_eq!(body.len(), 2);
    assert_eq!(body[1].candle.open_time, 60_000);
    assert!(!body[1].candle.is_closed);
    assert_eq!(body[1].symbol, "BTCUSDT");
}

#[test]
fn second_interval_query_reads_closed_rows_from_memory_not_sqlite() {
    let mut latest = LatestCache::default();
    let mut memory_series = MemorySeriesStore::default();
    let interval = Interval::parse("15S").unwrap();

    memory_series.push_closed("BTCUSDT", "15S", candle(0, 15_000, true));
    latest.upsert("BTCUSDT", "15S", candle(15_000, 15_000, false));

    assert!(is_held_in_memory(&interval));
    assert!(!is_held_in_memory(&minute()));
    let body = query_kline_rows(
        "BTCUSDT",
        interval,
        &memory_series.query("BTCUSDT", "15S", None, None, fetch_limit(10, false)),
        &rows(&[0, 60_000]),
        latest.get("BTCUSDT", "15S"),
        None,
        None,
        10,
        false,
    );
    assert_eq!(body.len(), 2);
    assert!(body[0].candle.is_closed);
    assert!(!body[1].candle.is_closed);
}

#[test]
fn rows_that_wait_replace_stored_rows() {
    let stored = vec![row(60_000, 1.0), row(0, 1.0), row(120_000, 1.0)];
    let mut buffer = ClosedKlineBuffer::default();
    buffer.upsert("BTCUSDT", "1", row(60_000, 2.0).candle);
    buffer.upsert("BTCUSDT", "1", row(180_000, 2.0).candle);
    let buffered = buffer.query("BTCUSDT", "1", None, None, 10);
    let merged = merge_kline_rows(&stored, &buffered);
    assert_eq!(times(&merged), vec![0, 60_000, 120_000, 180_000]);
    assert_eq!(merged[1].candle.close, d(2.0));
    assert_eq!(merged[2].candle.close, d(1.0));
    // The last of several rows of one time counts.
    let twice = merge_kline_rows(&vec![row(0, 1.0), row(0, 3.0)], &Vec::new());
    assert_eq!(twice.len(), 1);
    assert_eq!(twice[0].candle.close, d(3.0));
}

#[test]
fn answers_are_the_last_gapless_run() {
    let mut gap = rows(&[0, 60_000, 180_000, 240_000]);
    keep_latest_contiguous_rows(&mut gap, 60_000);
    assert_eq!(times(&gap), vec![180_000, 240_000]);
    let mut whole = rows(&[0, 60_000]);
    keep_latest_contiguous_rows(&mut whole, 60_000);
    assert_eq!(times(&whole), vec![0, 60_000]);
    let mut none = Vec::new();
    keep_latest_contiguous_rows(&mut none, 60_000);
    assert!(none.is_empty());

    let stored = rows(&[0, 60_000, 120_000, 240_000, 300_000]);
    assert_eq!(
        times(&query(&stored, &Vec::new(), None, 10, false)),
        vec![240_000, 300_000]
    );
    assert_eq!(
        times(&query(&stored, &rows(&[180_000]), None, 4, false)),
        vec![120_000, 180_000, 240_000, 300_000]
    );
}

#[test]
fn the_open_candle_is_placed_by_its_time() {
    let stored = rows(&[0, 60_000]);
    let open = |time: i64| Some(candle(time, 60_000, false));
    // It replaces a row of the same time.
    let same = query(&stored, &Vec::new(), open(60_000), 10, false);
    assert_eq!(times(&same), vec![0, 60_000]);
    assert!(!same[1].candle.is_closed);
    // An older one is left out.
    let older = query(&stored, &Vec::new(), open(0), 10, false);
    assert!(older[0].candle.is_closed);
    // One alone is the answer.
    assert_eq!(times(&query(&Vec::new(), &Vec::new(), open(0), 10, false)), vec![0]);
    // One outside the window is left out.
    let windowed = query_kline_rows(
        "BTCUSDT",
        minute(),
        &stored,
        &Vec::new(),
        open(120_000),
        None,
        Some(60_000),
        10,
        false,
    );
    assert_eq!(times(&windowed), vec![0, 60_000]);
    // Where only closed candles are asked for, no open one is answered.
    let mut running = rows(&[0, 60_000, 120_000]);
    running[2].candle.is_closed = false;
    let closed = query(&running, &Vec::new(), open(180_000), 10, true);
    assert_eq!(times(&closed), vec![0, 60_000]);
    assert_eq!(fetch_limit(10, true), 11);
    assert_eq!(fetch_limit(10, false), 10);
    assert_eq!(fetch_limit(u32::MAX, true), u32::MAX);
    assert!(query(&stored, &Vec::new(), None, 0, false).is_empty());
}

#[test]
fn reads_lists_of_intervals_and_symbols() {
    assert_eq!(
        parse_intervals(Some(" 1, 5 ,D")).unwrap(),
        vec![
            Interval::Minutes(1),
            Interval::Minutes(5),
            Interval::Days(1)
        ]
    );
    for (input, message) in [
        (None, "missing intervals"),
        (Some("  "), "missing intervals"),
        (Some("1,,5"), "empty interval in intervals"),
        (Some("1, 7 ,"), "invalid interval: 7"),
    ] {
        let error = parse_intervals(input).unwrap_err();
        assert_eq!(error.status, 400);
        assert_eq!(error.message, message);
    }
    assert_eq!(
        parse_symbols(Some("btcusdt, Ethusdt")).unwrap(),
        vec!["BTCUSDT".to_string(), "ETHUSDT".to_string()]
    );
    assert_eq!(parse_symbols(None).unwrap_err().message, "missing symbols");
    assert_eq!(parse_symbols(Some("")).unwrap_err().message, "missing symbols");
    assert_eq!(
        parse_symbols(Some("a, ,b")).unwrap_err().message,
        "empty symbol in symbols"
    );
    assert_eq!(alert_not_found().status, 404);
    assert_eq!(alert_not_found().message, "alert not found");
    assert_eq!(internal_error("x".to_string()).status, 500);
}

#[test]
fn reads_requests_for_candles() {
    let mut query = KlineQuery {
        symbol: "btcusdt".to_string(),
        intervals: Some("1,5".to_string()),
        start_time: None,
        end_time: None,
        limit: None,
        closed_only: None,
    };
    let request = kline_request(&query).unwrap();
    assert_eq!(request.symbol, "BTCUSDT");
    assert_eq!(request.intervals.len(), 2);
    assert_eq!(request.limit, 200);
    assert!(!request.closed_only);
    query.limit = Some(7);
    query.closed_only = Some(true);
    let request = kline_request(&query).unwrap();
    assert_eq!(request.limit, 7);
    assert!(request.closed_only);
    query.intervals = None;
    assert_eq!(kline_request(&query).unwrap_err().message, "missing intervals");
}

fn guaili_query() -> GuailiQuery {
    GuailiQuery {
        symbols: Some("btcusdt".to_string()),
        intervals: Some("1".to_string()),
        start_time: None,
        end_time: None,
        limit: None,
        calc_limit: None,
        closed_only: None,
        ma_length: None,
        ma_type: None,
        atr_len: None,
        atr_percent_len: None,
        max_atr_rank: None,
        slope_mul: None,
        use_slope: None,
    }
}

#[test]
fn reads_requests_for_the_indicator() {
    let mut query = guaili_query();
    let request = guaili_request(&query).unwrap();
    assert_eq!(request.symbols, vec!["BTCUSDT".to_string()]);
    assert_eq!(request.limit, 200);
    assert_eq!(request.calc_limit, 500);
    assert_eq!(request.config.ma_type, MaType::Ema);
    assert_eq!(request.config.ma_length, 20);
    assert_eq!(request.config.max_atr_rank, d(100.0));

    query.ma_length = Some(0);
    query.atr_len = Some(0);
    query.atr_percent_len = Some(0);
    query.slope_mul = Some(d(0.5));
    query.use_slope = Some(false);
    query.ma_type = Some(" smma (rma) ".to_string());
    let config = guaili_config_from_query(&query).unwrap();
    assert_eq!(config.ma_length, 1);
    assert_eq!(config.atr_len, 1);
    assert_eq!(config.atr_percent_len, 2);
    assert_eq!(config.slope_mul, d(0.5));
    assert!(!config.use_slope);
    assert_eq!(config.ma_type, MaType::Smma);

    query.ma_length = Some(700);
    assert_eq!(guaili_calc_limit(&query, 200), 700);
    assert_eq!(guaili_calc_limit(&query, 900), 900);
    query.calc_limit = Some(3);
    query.ma_length = Some(1);
    assert_eq!(guaili_calc_limit(&query, 2), 15);

    query.ma_type = Some("hull".to_string());
    assert_eq!(
        guaili_request(&query).unwrap_err().message,
        "unsupported maType: hull"
    );
    query.intervals = Some("7".to_string());
    assert_eq!(
        guaili_request(&query).unwrap_err().message,
        "invalid interval: 7"
    );
    query.symbols = None;
    assert_eq!(guaili_request(&query).unwrap_err().message, "missing symbols");
}

#[test]
fn names_kinds_of_averages() {
    for (ma_type, name) in [
        (MaType::Sma, "SMA"),
        (MaType::Ema, "EMA"),
        (MaType::Smma, "SMMA (RMA)"),
        (MaType::Wma, "WMA"),
        (MaType::Vwma, "VWMA"),
    ] {
        assert_eq!(ma_type_name(ma_type), name);
        assert_eq!(parse_ma_type(Some(name)), Ok(ma_type));
    }
    assert_eq!(parse_ma_type(Some("rma")), Ok(MaType::Smma));
    assert_eq!(parse_ma_type(None), Ok(MaType::Ema));
}

#[test]
fn the_indicator_answers_with_the_last_points() {
    let points: Vec<GuailiPoint> = (0..4)
        .map(|index| GuailiPoint {
            open_time: index,
            close_time: index,
            ma: d(0.0),
            atr14: d(0.0),
            atr_rank: None,
            rank_filter: false,
            guaili: d(0.0),
            value: 0,
            long_trend: false,
            short_trend: false,
            is_closed: true,
        })
        .collect();
    let series = guaili_series(&minute(), points.clone(), 2);
    assert_eq!(series.count, 2);
    assert_eq!(series.start_time, Some(2));
    assert_eq!(series.end_time, Some(3));
    assert_eq!(series.latest, Some(points[3]));
    assert_eq!(series.interval, "1");
    let none = guaili_series(&minute(), Vec::new(), 2);
    assert_eq!((none.count, none.latest), (0, None));
}

#[test]
fn the_stream_is_stale_after_a_minute_without_messages() {
    let mut health = RuntimeHealth::default();
    assert!(health.websocket_snapshot(0).ok);
    health.mark_reconnecting("gone".to_string());
    let broken = health.websocket_snapshot(5);
    assert!(!broken.ok);
    assert_eq!(broken.reason, Some("websocket is disconnected"));
    assert_eq!(broken.reconnect_count, 1);
    assert_eq!(broken.last_error.as_deref(), Some("gone"));
    health.mark_connected();
    health.mark_message_at(1_000);
    let fresh = health.websocket_snapshot(61_000);
    assert!(fresh.ok && fresh.connected);
    assert_eq!(fresh.last_message_ago_ms, Some(60_000));
    assert_eq!(fresh.last_error, None);
    let stale = health.websocket_snapshot(61_001);
    assert_eq!(stale.reason, Some("websocket message stream is stale"));
    assert_eq!(
        health.websocket_snapshot(i64::MIN).last_message_ago_ms,
        Some(i64::MIN)
    );
    health.mark_message_at(-2);
    assert_eq!(
        health.websocket_snapshot(i64::MAX).last_message_ago_ms,
        Some(i64::MAX)
    );
    health.mark_disconnected("off".to_string());
    let off = health.websocket_snapshot(0);
    assert_eq!(off.reason, Some("websocket is disconnected"));
    assert_eq!(off.reconnect_count, 1);
}

#[test]
fn stored_rows_are_closed_once_their_time_has_passed() {
    assert!(closed_by_now(1, 9, 10));
    assert!(!closed_by_now(1, 10, 10));
    assert!(!closed_by_now(0, 9, 10));
    assert!(prunes(DEFAULT_RETENTION_BARS));
    assert!(!prunes(0));
    assert_eq!(
        kline_query_sql(true, true),
        "SELECT symbol, interval, open_time, close_time, open, high, low, close, volume, quote_volume, trade_count, is_closed FROM klines WHERE symbol = ? AND interval = ? AND open_time >= ? AND open_time <= ? ORDER BY open_time ASC LIMIT ?"
    );
    assert_eq!(
        kline_query_sql(false, false),
        "SELECT symbol, interval, open_time, close_time, open, high, low, close, volume, quote_volume, trade_count, is_closed FROM (SELECT symbol, interval, open_time, close_time, open, high, low, close, volume, quote_volume, trade_count, is_closed FROM klines WHERE symbol = ? AND interval = ? ORDER BY open_time DESC LIMIT ?) ORDER BY open_time ASC"
    );
}

#[test]
fn a_smaller_limit_only_shortens_the_answer() {
    let mut long = guaili_query();
    long.limit = Some(3);
    let mut short = guaili_query();
    short.limit = Some(1);
    let long = guaili_request(&long).unwrap();
    let short = guaili_request(&short).unwrap();
    assert_eq!(long.calc_limit, short.calc_limit);
    let points: Vec<GuailiPoint> = (0..5)
        .map(|index| GuailiPoint {
            open_time: index,
            close_time: index,
            ma: d(0.0),
            atr14: d(0.0),
            atr_rank: None,
            rank_filter: false,
            guaili: d(0.0),
            value: 0,
            long_trend: false,
            short_trend: false,
            is_closed: true,
        })
        .collect();
    let a = guaili_series(&minute(), points.clone(), long.limit);
    let b = guaili_series(&minute(), points, short.limit);
    assert_eq!(a.data.len(), 3);
    assert_eq!(b.data, vec![a.data[2]]);
    assert_eq!(a.latest, b.latest);
}
