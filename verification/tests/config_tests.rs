use crypto_candlestick::config::{
    parse_subscriptions, AppConfig, ConfigError, FileConfig, RawSymbolSubscription, RealtimeSource,
    SymbolSubscription,
};
use crypto_candlestick::domain::interval::Interval;

const CONFIG_PREFIX: &str = r#"
[server]
bind_addr = "127.0.0.1:4000"

[database]
url = "sqlite://custom.db"
retention_bars = 1234

[binance]
sync_on_start = false
sync_lookback_bars = 777
"#;

const CONFIG_SUFFIX: &str = r#"
[realtime]
flush_interval_secs = 60
flush_max_rows = 250

[logging]
dir = "custom-logs"
level = "debug"
"#;

fn text(table: &toml::Value, key: &str) -> String {
    table[key].as_str().unwrap().to_string()
}

fn number(table: &toml::Value, key: &str) -> i64 {
    table[key].as_integer().unwrap()
}

fn file(raw: &str) -> FileConfig {
    let table: toml::Value = toml::from_str(raw).unwrap();
    let symbols = table["binance"]["symbols"]
        .as_array()
        .unwrap()
        .iter()
        .map(|symbol| RawSymbolSubscription {
            symbol: text(symbol, "symbol"),
            intervals: symbol["intervals"]
                .as_array()
                .unwrap()
                .iter()
                .map(|interval| interval.as_str().unwrap().to_string())
                .collect(),
            source: match symbol.get("source") {
                Some(source) => RealtimeSource::from_name(source.as_str().unwrap()).unwrap(),
                None => RealtimeSource::default(),
            },
        })
        .collect();
    FileConfig {
        bind_addr: text(&table["server"], "bind_addr"),
        database_url: text(&table["database"], "url"),
        retention_bars: number(&table["database"], "retention_bars") as u32,
        sync_on_start: table["binance"]["sync_on_start"].as_bool().unwrap(),
        sync_lookback_bars: number(&table["binance"], "sync_lookback_bars") as u32,
        symbols,
        flush_interval_secs: number(&table["realtime"], "flush_interval_secs") as u64,
        flush_max_rows: number(&table["realtime"], "flush_max_rows") as usize,
        log_dir: text(&table["logging"], "dir"),
        log_level: text(&table["logging"], "level"),
    }
}

fn raw(symbol: &str, intervals: &[&str], source: RealtimeSource) -> RawSymbolSubscription {
    RawSymbolSubscription {
        symbol: symbol.to_string(),
        intervals: intervals.iter().map(|name| name.to_string()).collect(),
        source,
    }
}

#[test]
fn builds_config_from_toml() {
    let raw = format!(
        r#"{CONFIG_PREFIX}
[[binance.symbols]]
symbol = "BTCUSDT"
intervals = ["15S", "1", "5", "D"]
source = "trade"

[[binance.symbols]]
symbol = "ETHUSDT"
intervals = ["5", "15", "60"]
{CONFIG_SUFFIX}"#
    );
    let config = AppConfig::from_file(file(&raw)).unwrap();

    assert_eq!(config.database_url, "sqlite://custom.db");
    assert_eq!(config.bind_addr, "127.0.0.1:4000");
    assert_eq!(config.subscriptions.len(), 2);
    assert_eq!(config.subscriptions[0].symbol, "BTCUSDT");
    assert_eq!(config.subscriptions[0].intervals.len(), 4);
    assert_eq!(config.subscriptions[0].source, RealtimeSource::Trade);
    assert_eq!(config.subscriptions[1].source, RealtimeSource::Auto);
    assert_eq!(
        config.subscriptions[1].resolved_source(),
        RealtimeSource::Kline1m
    );
    assert_eq!(config.retention_bars, 1234);
    assert!(!config.sync_on_start);
    assert_eq!(config.sync_lookback_bars, 777);
    assert_eq!(config.realtime_flush_interval_secs, 60);
    assert_eq!(config.realtime_flush_max_rows, 250);
    assert_eq!(config.log_dir, "custom-logs");
    assert_eq!(config.log_level, "debug");
}

#[test]
fn resolves_auto_source_from_each_symbols_minimum_interval() {
    let raw = format!(
        r#"{CONFIG_PREFIX}
[[binance.symbols]]
symbol = "BTCUSDT"
intervals = ["15S", "1", "5", "15"]

[[binance.symbols]]
symbol = "ETHUSDT"
intervals = ["1", "15", "60"]

[[binance.symbols]]
symbol = "SOLUSDT"
intervals = ["15", "60"]
source = "trade"

[[binance.symbols]]
symbol = "BNBUSDT"
intervals = ["1", "15"]
source = "kline_1m"
{CONFIG_SUFFIX}"#
    );
    let config = AppConfig::from_file(file(&raw)).unwrap();

    assert_eq!(
        config.subscriptions[0].resolved_source(),
        RealtimeSource::Trade
    );
    assert_eq!(
        config.subscriptions[1].resolved_source(),
        RealtimeSource::Kline1m
    );
    assert_eq!(
        config.subscriptions[2].resolved_source(),
        RealtimeSource::Trade
    );
    assert_eq!(
        config.subscriptions[3].resolved_source(),
        RealtimeSource::Kline1m
    );
}

#[test]
fn rejects_sub_minute_interval_with_explicit_kline_source() {
    let raw = format!(
        r#"{CONFIG_PREFIX}
[[binance.symbols]]
symbol = "BTCUSDT"
intervals = ["15S", "5"]
source = "kline_1m"
{CONFIG_SUFFIX}"#
    );
    let error = AppConfig::from_file(file(&raw)).unwrap_err();

    assert_eq!(
        error,
        ConfigError::KlineWithSubMinute {
            symbol: "BTCUSDT".to_string(),
            interval: "15S".to_string(),
        }
    );
    assert_eq!(
        error.message(),
        "kline_1m source cannot build sub-minute interval 15S for BTCUSDT"
    );
}

#[test]
fn refuses_entries_that_cannot_stand() {
    let auto = RealtimeSource::Auto;
    let error = |entries: Vec<RawSymbolSubscription>| parse_subscriptions(&entries).unwrap_err();

    assert_eq!(
        error(vec![raw("  ", &["1"], auto)]),
        ConfigError::EmptySymbol
    );
    assert_eq!(
        error(vec![raw("btcusdt", &["1"], auto), raw(" BTCUSDT", &[], auto)]),
        ConfigError::DuplicateSymbol("BTCUSDT".to_string())
    );
    assert_eq!(
        error(vec![raw("btcusdt", &[], auto)]),
        ConfigError::EmptyIntervals("BTCUSDT".to_string())
    );
    assert_eq!(
        error(vec![raw("btcusdt", &["1", "7", "x"], auto)]),
        ConfigError::InvalidInterval {
            symbol: "BTCUSDT".to_string(),
            interval: "7".to_string(),
        }
    );
    assert_eq!(
        ConfigError::EmptySymbol.message(),
        "symbol cannot be empty"
    );
    assert_eq!(
        ConfigError::DuplicateSymbol("A".to_string()).message(),
        "duplicate symbol in configuration: A"
    );
    assert_eq!(
        ConfigError::EmptyIntervals("A".to_string()).message(),
        "symbol A must configure at least one interval"
    );
    assert_eq!(
        ConfigError::InvalidInterval {
            symbol: "A".to_string(),
            interval: "7".to_string(),
        }
        .message(),
        "invalid interval for A: 7"
    );
    assert_eq!(
        ConfigError::Read {
            path: "p".to_string(),
            message: "m".to_string(),
        }
        .message(),
        "failed to read p: m"
    );
    assert_eq!(
        ConfigError::Toml("t".to_string()).message(),
        "invalid TOML configuration: t"
    );
}

#[test]
fn keeps_each_interval_once() {
    let subscriptions = parse_subscriptions(&vec![raw(
        " btcusdt ",
        &["5", "1D", "5", "d", "60"],
        RealtimeSource::Auto,
    )])
    .unwrap();
    assert_eq!(subscriptions[0].symbol, "BTCUSDT");
    assert_eq!(
        subscriptions[0].intervals,
        vec![
            Interval::Minutes(5),
            Interval::Days(1),
            Interval::Minutes(60)
        ]
    );
    assert!(parse_subscriptions(&Vec::new()).unwrap().is_empty());
}

#[test]
fn names_sources() {
    for (source, name) in [
        (RealtimeSource::Auto, "auto"),
        (RealtimeSource::Trade, "trade"),
        (RealtimeSource::Kline1m, "kline_1m"),
    ] {
        assert_eq!(source.name(), name);
        assert_eq!(RealtimeSource::from_name(name), Some(source));
    }
    assert_eq!(RealtimeSource::from_name("Auto"), None);
    // Without intervals trades are followed.
    assert_eq!(
        SymbolSubscription::new("a", Vec::new(), RealtimeSource::Auto).resolved_source(),
        RealtimeSource::Trade
    );
}

#[test]
fn accepted_symbols_are_settled_and_distinct() {
    let auto = RealtimeSource::Auto;
    let accepted = parse_subscriptions(&vec![
        raw(" btcusdt\u{3000}", &["1"], auto),
        raw("ethusdt", &["1"], auto),
    ])
    .unwrap();
    assert_eq!(accepted[0].symbol, "BTCUSDT");
    assert_eq!(accepted[1].symbol, "ETHUSDT");
    assert_eq!(
        parse_subscriptions(&vec![
            raw("btcusdt", &["1"], auto),
            raw("\tBTCUSDT ", &["5"], auto),
        ]),
        Err(ConfigError::DuplicateSymbol("BTCUSDT".to_string()))
    );
}
