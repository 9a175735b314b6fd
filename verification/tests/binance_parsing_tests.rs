use crypto_candlestick::binance::types::{
    parse_combined_stream_message, AggTradeEvent, BinanceParseError, KlineEvent, MarketEvent,
    RawKline, StreamEvent,
};
use crypto_candlestick::domain::number::Double;

fn d(value: f64) -> Double {
    Double::from_bits(value.to_bits())
}

fn read(text: &String) -> Result<Double, String> {
    match text.parse::<f64>() {
        Ok(value) => Ok(d(value)),
        Err(error) => Err(error.to_string()),
    }
}

fn kline(close: &str, high: &str, closed: bool) -> KlineEvent {
    KlineEvent {
        symbol: "BTCUSDT".to_string(),
        kline: RawKline {
            open_time: 1710000000000i64,
            close_time: 1710000059999i64,
            interval: "1m".to_string(),
            open: "100.0".to_string(),
            close: close.to_string(),
            high: high.to_string(),
            low: "99.0".to_string(),
            volume: "10.5".to_string(),
            trade_count: 42,
            is_closed: closed,
            quote_volume: "1050.0".to_string(),
        },
    }
}

#[test]
fn parses_closed_kline_event() {
    let raw = StreamEvent::Kline(kline("101.0", "102.0", true));

    let event = parse_combined_stream_message(raw, &read).unwrap();
    match event {
        MarketEvent::ClosedKline {
            symbol,
            interval,
            candle,
        } => {
            assert_eq!(symbol, "BTCUSDT");
            assert_eq!(interval, "1m");
            assert_eq!(candle.open_time, 1710000000000);
            assert_eq!(candle.close, d(101.0));
            assert_eq!(candle.close_time, 1710000059999);
            assert_eq!(candle.open, d(100.0));
            assert_eq!(candle.high, d(102.0));
            assert_eq!(candle.low, d(99.0));
            assert_eq!(candle.volume, d(10.5));
            assert_eq!(candle.quote_volume, d(1050.0));
            assert_eq!(candle.trade_count, 42);
            assert!(candle.is_closed);
        }
        other => panic!("unexpected event: {:?}", other),
    }
}

#[test]
fn parses_open_kline_event_without_marking_it_closed() {
    let raw = StreamEvent::Kline(kline("100.5", "101.0", false));

    let event = parse_combined_stream_message(raw, &read).unwrap();
    match event {
        MarketEvent::OpenKline {
            symbol,
            interval,
            candle,
        } => {
            assert_eq!(symbol, "BTCUSDT");
            assert_eq!(interval, "1m");
            assert_eq!(candle.open_time, 1710000000000);
            assert_eq!(candle.close, d(100.5));
            assert!(!candle.is_closed);
        }
        other => panic!("unexpected event: {:?}", other),
    }
}

#[test]
fn the_first_text_that_is_no_number_decides() {
    let mut event = kline("x", "", true);
    event.kline.volume = "y".to_string();
    assert_eq!(
        parse_combined_stream_message(StreamEvent::Kline(event), &read),
        Err(BinanceParseError::Number(
            "cannot parse float from empty string".to_string()
        ))
    );
    assert_eq!(
        BinanceParseError::Number("z".to_string()).message(),
        "invalid number: z"
    );
    assert_eq!(
        BinanceParseError::Json("z".to_string()).message(),
        "invalid json: z"
    );
    assert_eq!(
        BinanceParseError::Unsupported.message(),
        "unsupported stream event"
    );
}

#[test]
fn parses_trades() {
    let trade = |price: &str, quantity: &str| {
        parse_combined_stream_message(
            StreamEvent::AggTrade(AggTradeEvent {
                symbol: "BTCUSDT".to_string(),
                price: price.to_string(),
                quantity: quantity.to_string(),
                trade_time: 7,
            }),
            &read,
        )
    };
    match trade("100.5", "2").unwrap() {
        MarketEvent::AggTrade { symbol, trade } => {
            assert_eq!(symbol, "BTCUSDT");
            assert_eq!(trade.timestamp_ms, 7);
            assert_eq!(trade.price, d(100.5));
            assert_eq!(trade.quantity, d(2.0));
        }
        other => panic!("unexpected event: {:?}", other),
    }
    assert!(matches!(trade("", "2"), Err(BinanceParseError::Number(_))));
    assert!(matches!(trade("1", "q"), Err(BinanceParseError::Number(_))));
}
