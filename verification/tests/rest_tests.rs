use crypto_candlestick::binance::rest::closed_lookback_window;
use crypto_candlestick::binance::rest::missing_ranges_for_source;
use crypto_candlestick::binance::rest::parse_rest_klines;
use crypto_candlestick::binance::rest::rebuild_custom_klines;
use crypto_candlestick::binance::rest::{
    aggregate_complete_custom_klines, can_aggregate, can_count_bars, can_look_back, can_refresh,
    can_walk, expected_bars, missing_candles, request_limit, JsonValue,
    RestError,
};
use crypto_candlestick::binance::rest::{detect_missing_kline_ranges, MissingKlineRange};
use crypto_candlestick::binance::rest::{plan_rest_kline_pages, refresh_page, RestKlinePage};
use crypto_candlestick::binance::worker::{KlineSource, SubscriptionPlan};
use crypto_candlestick::domain::candle::Candle;
use crypto_candlestick::domain::interval::Interval;
use crypto_candlestick::domain::number::{Calc, Double};
use crypto_candlestick::storage::sqlite::StoredKline;

fn d(value: f64) -> Double {
    Double::from_bits(value.to_bits())
}

fn calc(step: Calc) -> Double {
    let f = |value: Double| f64::from_bits(value.bits);
    d(match step {
        Calc::Start => std::iter::empty::<f64>().sum::<f64>(),
        Calc::Count(n) => n as f64,
        Calc::Add(a, b) => f(a) + f(b),
        Calc::Subtract(a, b) => f(a) - f(b),
        Calc::Multiply(a, b) => f(a) * f(b),
        Calc::Divide(a, b) => f(a) / f(b),
        Calc::Absolute(a) => f(a).abs(),
        Calc::Negate(a) => -f(a),
    })
}

fn read(text: &String) -> Result<Double, String> {
    match text.parse::<f64>() {
        Ok(value) => Ok(d(value)),
        Err(error) => Err(error.to_string()),
    }
}

fn text(value: &str) -> JsonValue {
    JsonValue::Text(value.to_string())
}

fn integer(value: i64) -> JsonValue {
    let number = serde_json::Number::from(value);
    JsonValue::Number {
        signed: number.as_i64(),
        unsigned: number.as_u64(),
    }
}

fn full_row() -> Vec<JsonValue> {
    vec![
        integer(1710000000000i64),
        text("100.0"),
        text("102.0"),
        text("99.0"),
        text("101.0"),
        text("12.5"),
        integer(1710000059999i64),
        text("1250.0"),
        integer(42),
        text("4.5"),
        text("450.0"),
        text("0"),
    ]
}

fn minute_row(index: i64) -> StoredKline {
    let open_time = index * 60_000;
    StoredKline {
        symbol: "BTCUSDT".to_string(),
        interval: "1".to_string(),
        candle: Candle {
            open_time,
            close_time: open_time + 59_999,
            open: d(100.0 + index as f64),
            high: d(102.0 + index as f64),
            low: d(99.0),
            close: d(101.0 + index as f64),
            volume: d(10.0),
            quote_volume: d(1_000.0),
            trade_count: 10,
            is_closed: true,
        },
    }
}

#[test]
fn parses_rest_kline_array() {
    let payload = JsonValue::Array(vec![JsonValue::Array(full_row())]);

    let rows = parse_rest_klines(&payload, &read).unwrap();
    assert_eq!(rows.len(), 1);
    assert_eq!(rows[0].open_time, 1710000000000);
    assert_eq!(rows[0].close_time, 1710000059999);
    assert_eq!(rows[0].open, d(100.0));
    assert_eq!(rows[0].high, d(102.0));
    assert_eq!(rows[0].low, d(99.0));
    assert_eq!(rows[0].close, d(101.0));
    assert_eq!(rows[0].volume, d(12.5));
    assert_eq!(rows[0].quote_volume, d(1250.0));
    assert_eq!(rows[0].trade_count, 42);
    assert!(rows[0].is_closed);
}

#[test]
fn refuses_payloads_that_are_no_candles() {
    for payload in [
        JsonValue::Other,
        text("[]"),
        JsonValue::Array(vec![JsonValue::Other]),
        JsonValue::Array(vec![JsonValue::Array(full_row()[..0].iter().map(|_| integer(0)).collect())]),
    ] {
        assert_eq!(
            parse_rest_klines(&payload, &read),
            Err(RestError::InvalidPayload)
        );
    }
    assert_eq!(
        parse_rest_klines(&JsonValue::Array(Vec::new()), &read),
        Ok(Vec::new())
    );

    let mut short = full_row();
    short.truncate(8);
    assert_eq!(
        parse_rest_klines(&JsonValue::Array(vec![JsonValue::Array(short)]), &read),
        Err(RestError::InvalidPayload)
    );

    // A number where a text is due, and a negative count.
    let mut wrong = full_row();
    wrong[1] = integer(100);
    assert_eq!(
        parse_rest_klines(&JsonValue::Array(vec![JsonValue::Array(wrong)]), &read),
        Err(RestError::InvalidPayload)
    );
    let mut negative = full_row();
    negative[8] = integer(-1);
    assert_eq!(
        parse_rest_klines(&JsonValue::Array(vec![JsonValue::Array(negative)]), &read),
        Err(RestError::InvalidPayload)
    );

    // The first fault of the first bad row decides.
    let mut high = full_row();
    high[2] = text("high");
    high[8] = text("many");
    let error = parse_rest_klines(
        &JsonValue::Array(vec![
            JsonValue::Array(full_row()),
            JsonValue::Array(high),
            JsonValue::Other,
        ]),
        &read,
    )
    .unwrap_err();
    assert_eq!(error.message(), "invalid number: invalid float literal");
}

#[test]
fn names_each_rest_error() {
    assert_eq!(RestError::Http("x".to_string()).message(), "http error: x");
    assert_eq!(RestError::Json("x".to_string()).message(), "json error: x");
    assert_eq!(
        RestError::Storage("x".to_string()).message(),
        "storage error: x"
    );
    assert_eq!(RestError::InvalidPayload.message(), "invalid kline payload");
}

#[test]
fn rebuilds_custom_interval_from_native_base_rows() {
    let stored = vec![minute_row(0), minute_row(1)];

    let plan = SubscriptionPlan::new(
        vec!["BTCUSDT".to_string()],
        vec![Interval::parse("2").unwrap()],
    );
    let targets = plan.aggregation_targets();
    assert_eq!(
        targets,
        vec![("BTCUSDT".to_string(), "1".to_string(), "2".to_string())]
    );
    let rows = rebuild_custom_klines(&targets[0].1, &targets[0].2, &stored, &calc).unwrap();

    assert_eq!(rows.len(), 1);
    assert_eq!(rows[0].open_time, 0);
    assert_eq!(rows[0].close_time, 119_999);
    assert_eq!(rows[0].open, d(100.0));
    assert_eq!(rows[0].high, d(103.0));
    assert_eq!(rows[0].close, d(102.0));
    assert_eq!(rows[0].volume, d(20.0));
    assert_eq!(rows[0].trade_count, 20);
    assert!(rows[0].is_closed);

    assert_eq!(missing_candles(&rows, &Vec::new()), rows);
    assert_eq!(missing_candles(&rows, &stored), Vec::new());
    assert_eq!(
        rebuild_custom_klines("x", "2", &stored, &calc),
        Err(RestError::InvalidPayload)
    );
    assert_eq!(
        rebuild_custom_klines("1", "7", &stored, &calc),
        Err(RestError::InvalidPayload)
    );
}

#[test]
fn incomplete_buckets_make_no_candle() {
    let one = Interval::parse("1").unwrap();
    let two = Interval::parse("2").unwrap();
    // Minute 1 closes the first bucket, which minute 0 does not begin.
    let rows = vec![
        minute_row(1),
        minute_row(2),
        minute_row(3),
        minute_row(4),
        minute_row(6),
        minute_row(7),
    ];
    let candles = aggregate_complete_custom_klines(&rows, one, two, &calc);
    let times: Vec<i64> = candles.iter().map(|candle| candle.open_time).collect();
    assert_eq!(times, vec![120_000, 360_000]);

    // A base that does not divide the target makes nothing.
    let three = Interval::parse("3").unwrap();
    assert!(aggregate_complete_custom_klines(&rows, three, two, &calc).is_empty());
}

#[test]
fn detects_single_missing_kline_range() {
    let ranges = detect_missing_kline_ranges(0, 4 * 60_000, 60_000, &[0, 60_000, 180_000, 240_000]);

    assert_eq!(
        ranges,
        vec![MissingKlineRange {
            start_open_time: 120_000,
            end_open_time: 120_000,
            interval_ms: 60_000,
        }]
    );
}

#[test]
fn merges_consecutive_missing_klines_into_one_range() {
    let ranges = detect_missing_kline_ranges(0, 5 * 60_000, 60_000, &[0, 60_000, 300_000]);

    assert_eq!(
        ranges,
        vec![MissingKlineRange {
            start_open_time: 120_000,
            end_open_time: 240_000,
            interval_ms: 60_000,
        }]
    );
}

#[test]
fn detects_tail_lag_as_missing_range() {
    let ranges = detect_missing_kline_ranges(0, 4 * 60_000, 60_000, &[0, 60_000, 120_000]);

    assert_eq!(
        ranges,
        vec![MissingKlineRange {
            start_open_time: 180_000,
            end_open_time: 240_000,
            interval_ms: 60_000,
        }]
    );
}

#[test]
fn empty_window_fetches_whole_closed_lookback_range() {
    let ranges = detect_missing_kline_ranges(0, 2 * 60_000, 60_000, &[]);

    assert_eq!(
        ranges,
        vec![MissingKlineRange {
            start_open_time: 0,
            end_open_time: 120_000,
            interval_ms: 60_000,
        }]
    );
}

#[test]
fn complete_window_has_no_missing_ranges() {
    let ranges = detect_missing_kline_ranges(0, 2 * 60_000, 60_000, &[0, 60_000, 120_000]);

    assert!(ranges.is_empty());
}

#[test]
fn several_gaps_come_in_order() {
    let ranges = detect_missing_kline_ranges(0, 6 * 60_000 + 5, 60_000, &[60_000, 7, 240_000]);
    let bounds: Vec<(i64, i64)> = ranges
        .iter()
        .map(|range| (range.start_open_time, range.end_open_time))
        .collect();
    assert_eq!(bounds, vec![(0, 0), (120_000, 180_000), (300_000, 360_005)]);
    assert!(detect_missing_kline_ranges(1, 0, 0, &[]).is_empty());
}

#[test]
fn closed_lookback_window_ends_at_latest_closed_bucket() {
    let interval = Interval::parse("5").unwrap();
    let now_ms = 1779868323456; // 2026-05-27 15:52:03.456 +08:00

    let (start, end) = closed_lookback_window(&interval, 3, now_ms);

    assert_eq!(start, 1779867300000); // 15:35 +08:00
    assert_eq!(end, 1779867900000); // 15:45 +08:00
}

#[test]
fn closed_lookback_window_uses_one_bar_minimum() {
    let interval = Interval::parse("1").unwrap();
    let now_ms = 1779868323456;

    let (start, end) = closed_lookback_window(&interval, 0, now_ms);

    assert_eq!(start, end);
    assert_eq!(end, 1779868260000); // 15:51 +08:00
}

#[test]
fn plans_single_rest_page_for_small_gap() {
    let pages = plan_rest_kline_pages(&MissingKlineRange {
        start_open_time: 1779867600000,
        end_open_time: 1779867600000,
        interval_ms: 300_000,
    });

    assert_eq!(
        pages,
        vec![RestKlinePage {
            start_time: 1779867600000,
            end_time: 1779867899999,
            limit: 1,
        }]
    );
}

#[test]
fn splits_large_gap_without_requesting_outside_range() {
    let pages = plan_rest_kline_pages(&MissingKlineRange {
        start_open_time: 0,
        end_open_time: 1500 * 60_000,
        interval_ms: 60_000,
    });

    assert_eq!(pages.len(), 2);
    assert_eq!(
        pages[0],
        RestKlinePage {
            start_time: 0,
            end_time: 1499 * 60_000 + 59_999,
            limit: 1500,
        }
    );
    assert_eq!(
        pages[1],
        RestKlinePage {
            start_time: 1500 * 60_000,
            end_time: 1500 * 60_000 + 59_999,
            limit: 1,
        }
    );
}

#[test]
fn ranges_that_end_before_they_start() {
    let page = |end_open_time: i64| {
        plan_rest_kline_pages(&MissingKlineRange {
            start_open_time: 60_000,
            end_open_time,
            interval_ms: 60_000,
        })
        .len()
    };
    assert_eq!(page(30_000), 1);
    assert_eq!(page(0), 0);
    assert_eq!(request_limit(7), 7);
    assert_eq!(request_limit(9_000), 1_500);
}

#[test]
fn finds_only_missing_ranges_from_sqlite_window() {
    let source = KlineSource {
        symbol: "BTCUSDT".to_string(),
        canonical_interval: "5".to_string(),
        binance_interval: "5m",
        interval: Interval::parse("5").unwrap(),
    };
    let mut rows = Vec::new();
    for open_time in [0, 300_000, 900_000, 1_200_000] {
        rows.push(StoredKline {
            symbol: source.symbol.clone(),
            interval: source.canonical_interval.clone(),
            candle: Candle {
                open_time,
                close_time: open_time + 299_999,
                open: d(100.0),
                high: d(101.0),
                low: d(99.0),
                close: d(100.5),
                volume: d(1.0),
                quote_volume: d(100.0),
                trade_count: 1,
                is_closed: true,
            },
        });
    }

    assert_eq!(expected_bars(&source.interval, 0, 1_200_000), 5);
    let ranges = missing_ranges_for_source(&source.interval, 0, 1_200_000, &rows);

    assert_eq!(
        ranges,
        vec![MissingKlineRange {
            start_open_time: 600_000,
            end_open_time: 600_000,
            interval_ms: 300_000,
        }]
    );
}

#[test]
fn counts_of_backward_ranges_and_windows() {
    // A backward step walks back from the start.
    assert_eq!(
        plan_rest_kline_pages(&MissingKlineRange {
            start_open_time: 0,
            end_open_time: -120_000,
            interval_ms: -60_000,
        }),
        vec![RestKlinePage {
            start_time: 0,
            end_time: -180_001,
            limit: 3,
        }]
    );
    // One interval back from the start counts none.
    assert!(plan_rest_kline_pages(&MissingKlineRange {
        start_open_time: 60_000,
        end_open_time: 0,
        interval_ms: 60_000,
    })
    .is_empty());
    let minute = Interval::parse("1").unwrap();
    assert_eq!(expected_bars(&minute, 59_999, 0), 1);
    assert_eq!(expected_bars(&minute, 60_000, 0), 0);
    assert_eq!(expected_bars(&minute, 120_000, 0), u32::MAX);
    assert_eq!(expected_bars(&minute, 0, 60_000 * 4_294_967_297), 2);
}

#[test]
fn trades_are_bounded_per_bucket() {
    // The counts of two buckets together are more than 64 bits hold.
    let rows: Vec<StoredKline> = (0..4)
        .map(|index| StoredKline {
            symbol: "BTCUSDT".to_string(),
            interval: "1".to_string(),
            candle: Candle {
                open_time: index * 60_000,
                close_time: index * 60_000 + 59_999,
                open: d(1.0),
                high: d(2.0),
                low: d(0.5),
                close: d(1.5),
                volume: d(1.0),
                quote_volume: d(1.5),
                trade_count: u64::MAX / 2,
                is_closed: true,
            },
        })
        .collect();
    let minutes = |n: u32| Interval::Minutes(n);
    assert!(can_aggregate(&rows, minutes(1), minutes(2)));
    assert!(!can_aggregate(&rows, minutes(1), minutes(4)));
    assert!(can_aggregate(&rows, minutes(3), minutes(4)));
    assert!(!can_aggregate(&rows, minutes(1), minutes(0)));
    let rebuilt = rebuild_custom_klines("1", "2", &rows, &calc).unwrap();
    assert_eq!(rebuilt.len(), 2);
    assert_eq!(rebuilt[0].open_time, 0);
    assert_eq!(rebuilt[1].open_time, 120_000);
    assert_eq!(rebuilt[1].trade_count, u64::MAX - 1);
}

#[test]
fn newest_candles_are_asked_for_anew_at_start() {
    let five = Interval::parse("5").unwrap();
    assert_eq!(
        refresh_page(&five, 1_234_567),
        RestKlinePage {
            start_time: 600_000,
            end_time: 1_499_999,
            limit: 3,
        }
    );
}

#[test]
fn windows_and_ranges_are_tested_before_they_are_used() {
    let minute = Interval::parse("1").unwrap();
    assert!(can_look_back(&minute, 1500, 1_788_687_118_271));
    assert!(can_look_back(&minute, 0, 0));
    assert!(!can_look_back(&minute, 2, i64::MIN + 100_000));
    assert!(!can_look_back(&Interval::Weeks(u32::MAX), u32::MAX, 0));
    assert!(!can_look_back(&Interval::Minutes(0), 1, 0));
    assert!(can_refresh(&minute, 0));
    assert!(!can_refresh(&minute, i64::MAX));
    assert!(!can_refresh(&minute, i64::MIN + 100_000));
    assert!(can_walk(0, 600_000, 60_000));
    assert!(can_walk(1, 0, 0));
    assert!(!can_walk(0, 0, 0));
    assert!(!can_walk(0, i64::MAX, 60_000));
    assert!(can_walk(i64::MIN, i64::MAX - 1, 1));
    assert!(can_count_bars(&minute, 0, 600_000));
    assert!(!can_count_bars(&minute, i64::MIN, 0));
    assert!(!can_count_bars(&Interval::Minutes(0), 0, 0));
    let range = |start: i64, end: i64, step: i64| MissingKlineRange {
        start_open_time: start,
        end_open_time: end,
        interval_ms: step,
    };
    assert!(range(0, 120_000, 60_000).can_plan());
    assert!(range(0, -120_000, -60_000).can_plan());
    assert!(range(60_000, 0, 60_000).can_plan());
    assert!(!range(0, 0, 0).can_plan());
    assert!(!range(i64::MIN, 0, -1).can_plan());
    assert!(!range(0, i64::MAX, 1).can_plan());
    assert!(!range(i64::MAX, i64::MAX, 1).can_plan());
}
