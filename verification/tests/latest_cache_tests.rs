use crypto_candlestick::domain::candle::Candle;
use crypto_candlestick::domain::number::Double;
use crypto_candlestick::memory::{ClosedKlineBuffer, LatestCache, MemorySeriesStore};

fn d(value: f64) -> Double {
    Double::from_bits(value.to_bits())
}

fn candle(open_time: i64, close: f64) -> Candle {
    Candle {
        open_time,
        close_time: open_time + 59_999,
        open: d(100.0),
        high: d(101.0),
        low: d(99.0),
        close: d(close),
        volume: d(12.5),
        quote_volume: d(1_250.0),
        trade_count: 3,
        is_closed: true,
    }
}

#[test]
fn stores_and_returns_latest_open_candle() {
    let mut cache = LatestCache::default();
    let candle = Candle {
        open_time: 60_000,
        close_time: 119_999,
        open: d(100.0),
        high: d(101.0),
        low: d(99.0),
        close: d(100.5),
        volume: d(12.5),
        quote_volume: d(1_250.0),
        trade_count: 3,
        is_closed: false,
    };

    cache.upsert("BTCUSDT", "1", candle);

    assert_eq!(cache.get("BTCUSDT", "1"), Some(candle));
    assert_eq!(cache.get("ETHUSDT", "1"), None);
    // Symbols count in upper case, intervals as they are.
    assert_eq!(cache.get("btcusdt", "1"), Some(candle));
    cache.upsert("straße", "d", candle);
    assert_eq!(cache.get("STRASSE", "d"), Some(candle));
    assert_eq!(cache.get("STRASSE", "D"), None);

    cache.remove("btcUSDT", "1");
    assert_eq!(cache.get("BTCUSDT", "1"), None);
    assert_eq!(cache.get("STRASSE", "d"), Some(candle));
}

#[test]
fn memory_series_store_keeps_latest_rows_by_limit() {
    let mut store = MemorySeriesStore::new(3);

    for index in 0..5 {
        let open_time = index * 15_000;
        store.push_closed(
            "BTCUSDT",
            "15S",
            Candle {
                open_time,
                close_time: open_time + 14_999,
                open: d(100.0),
                high: d(101.0),
                low: d(99.0),
                close: d(100.5),
                volume: d(12.5),
                quote_volume: d(1_250.0),
                trade_count: 3,
                is_closed: true,
            },
        );
    }

    let rows = store.query("BTCUSDT", "15S", None, None, 10);
    assert_eq!(rows.len(), 3);
    assert_eq!(rows[0].candle.open_time, 30_000);
    assert_eq!(rows[2].candle.open_time, 60_000);
}

#[test]
fn memory_series_store_answers_windows_and_limits() {
    let mut store = MemorySeriesStore::default();
    for open_time in [30_000, 0, 15_000, 45_000] {
        let mut row = candle(open_time, 1.0);
        row.is_closed = false;
        store.push_closed("btcusdt", "15S", row);
    }
    store.push_closed("BTCUSDT", "15S", candle(15_000, 2.0));
    let times = |start: Option<i64>, end: Option<i64>, limit: u32| -> Vec<i64> {
        store
            .query("BtcUsdt", "15S", start, end, limit)
            .iter()
            .map(|row| row.candle.open_time)
            .collect()
    };
    assert_eq!(times(None, None, 10), vec![0, 15_000, 30_000, 45_000]);
    assert_eq!(times(Some(15_000), None, 10), vec![15_000, 30_000, 45_000]);
    assert_eq!(times(Some(15_000), Some(30_000), 10), vec![15_000, 30_000]);
    assert_eq!(times(None, Some(30_000), 2), vec![15_000, 30_000]);
    assert!(times(None, None, 0).is_empty());
    let rows = store.query("btcusdt", "15S", None, None, 10);
    assert!(rows.iter().all(|row| row.candle.is_closed));
    assert_eq!(rows[1].candle.close, d(2.0));
    assert_eq!(rows[0].symbol, "BTCUSDT");
    assert_eq!(rows[0].interval, "15S");
    assert!(store.query("BTCUSDT", "10S", None, None, 10).is_empty());
}

#[test]
fn closed_kline_buffer_deduplicates_and_drains_by_series() {
    let mut buffer = ClosedKlineBuffer::default();
    let candle = candle(60_000, 100.5);
    let mut updated = candle;
    updated.close = d(101.5);

    assert_eq!(buffer.upsert("BTCUSDT", "1", candle), 1);
    assert_eq!(buffer.upsert("BTCUSDT", "1", updated), 1);

    let rows = buffer.query("BTCUSDT", "1", None, None, 10);
    assert_eq!(rows.len(), 1);
    assert_eq!(rows[0].candle.close, d(101.5));

    let grouped = buffer.drain_grouped();
    assert_eq!(grouped.len(), 1);
    assert_eq!(grouped[0].symbol, "BTCUSDT");
    assert_eq!(grouped[0].interval, "1");
    assert_eq!(grouped[0].value.len(), 1);
    assert!(buffer.query("BTCUSDT", "1", None, None, 10).is_empty());
    assert_eq!(buffer.len(), 0);
}

#[test]
fn closed_kline_buffer_remove_flushed_keeps_newer_same_key_update() {
    let mut buffer = ClosedKlineBuffer::default();
    let candle = candle(60_000, 100.5);
    let mut updated = candle;
    updated.close = d(102.0);

    buffer.upsert("BTCUSDT", "1", candle);
    let snapshot = buffer.snapshot_grouped();
    buffer.upsert("BTCUSDT", "1", updated);
    buffer.remove_flushed(&snapshot);

    let rows = buffer.query("BTCUSDT", "1", None, None, 10);
    assert_eq!(rows.len(), 1);
    assert_eq!(rows[0].candle.close, d(102.0));
}

#[test]
fn closed_kline_buffer_counts_rows_over_all_series() {
    let mut buffer = ClosedKlineBuffer::default();
    assert_eq!(buffer.upsert("BTCUSDT", "1", candle(60_000, 1.0)), 1);
    assert_eq!(buffer.upsert("ETHUSDT", "5", candle(300_000, 1.0)), 2);
    assert_eq!(buffer.upsert("BTCUSDT", "1", candle(120_000, 1.0)), 3);
    let snapshot = buffer.snapshot_grouped();
    assert_eq!(snapshot.len(), 2);
    assert_eq!(buffer.upsert("BTCUSDT", "1", candle(180_000, 1.0)), 4);
    buffer.remove_flushed(&snapshot);
    assert_eq!(buffer.len(), 1);
    assert!(buffer.query("ETHUSDT", "5", None, None, 10).is_empty());
    let left = buffer.query("BTCUSDT", "1", None, None, 10);
    assert_eq!(left.len(), 1);
    assert_eq!(left[0].candle.open_time, 180_000);
}
