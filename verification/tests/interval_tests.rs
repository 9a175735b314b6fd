use crypto_candlestick::domain::interval::Interval;

#[test]
fn parses_custom_and_native_intervals() {
    assert_eq!(Interval::parse("10S").unwrap().as_millis(), 10_000);
    assert_eq!(Interval::parse("15S").unwrap().as_millis(), 15_000);
    assert_eq!(Interval::parse("45").unwrap().as_millis(), 2_700_000);
    assert_eq!(Interval::parse("4D").unwrap().as_millis(), 345_600_000);
    assert_eq!(Interval::parse("W").unwrap().as_millis(), 604_800_000);
}

#[test]
fn maps_binance_native_intervals() {
    assert_eq!(Interval::parse("1").unwrap().binance_interval(), Some("1m"));
    assert_eq!(Interval::parse("3").unwrap().binance_interval(), Some("3m"));
    assert_eq!(
        Interval::parse("60").unwrap().binance_interval(),
        Some("1h")
    );
    assert_eq!(
        Interval::parse("240").unwrap().binance_interval(),
        Some("4h")
    );
    assert_eq!(
        Interval::parse("720").unwrap().binance_interval(),
        Some("12h")
    );
    assert_eq!(Interval::parse("D").unwrap().binance_interval(), Some("1d"));
    assert_eq!(
        Interval::parse("3D").unwrap().binance_interval(),
        Some("3d")
    );
    assert_eq!(Interval::parse("W").unwrap().binance_interval(), Some("1w"));

    assert_eq!(Interval::parse("2").unwrap().binance_interval(), None);
    assert_eq!(Interval::parse("10D").unwrap().binance_interval(), None);
    assert_eq!(Interval::parse("10S").unwrap().binance_interval(), None);
    assert_eq!(Interval::parse("15S").unwrap().binance_interval(), None);
}

#[test]
fn maps_custom_intervals_to_base_interval() {
    assert_eq!(
        Interval::parse("2")
            .unwrap()
            .aggregation_base()
            .unwrap()
            .canonical(),
        "1"
    );
    assert_eq!(
        Interval::parse("10")
            .unwrap()
            .aggregation_base()
            .unwrap()
            .canonical(),
        "5"
    );
    assert_eq!(
        Interval::parse("20")
            .unwrap()
            .aggregation_base()
            .unwrap()
            .canonical(),
        "5"
    );
    assert_eq!(
        Interval::parse("45")
            .unwrap()
            .aggregation_base()
            .unwrap()
            .canonical(),
        "15"
    );
    assert_eq!(
        Interval::parse("90")
            .unwrap()
            .aggregation_base()
            .unwrap()
            .canonical(),
        "30"
    );
    assert_eq!(
        Interval::parse("180")
            .unwrap()
            .aggregation_base()
            .unwrap()
            .canonical(),
        "60"
    );
    assert_eq!(
        Interval::parse("2D")
            .unwrap()
            .aggregation_base()
            .unwrap()
            .canonical(),
        "D"
    );
    assert_eq!(
        Interval::parse("10D")
            .unwrap()
            .aggregation_base()
            .unwrap()
            .canonical(),
        "D"
    );
    assert!(Interval::parse("60").unwrap().aggregation_base().is_none());
    assert!(Interval::parse("10S").unwrap().aggregation_base().is_none());
    assert!(Interval::parse("15S").unwrap().aggregation_base().is_none());
}

#[test]
fn rejects_unsupported_intervals() {
    for raw in ["7", "11", "6D", "2W", "60S", "1H"] {
        assert!(Interval::parse(raw).is_err(), "{raw} should be unsupported");
    }
}

#[test]
fn refused_names_come_back_in_the_error() {
    let error = Interval::parse(" 7 ").unwrap_err();
    assert_eq!(error.input, " 7 ");
    assert_eq!(error.message(), "invalid interval:  7 ");
    for raw in ["", "   ", "0", "0S", "+", "m", "1m", "4294967296", "１"] {
        assert!(Interval::parse(raw).is_err(), "{raw} should be refused");
    }
}

#[test]
fn names_are_read_without_case_and_white_space() {
    assert_eq!(Interval::parse("d").unwrap(), Interval::Days(1));
    assert_eq!(Interval::parse(" w\t").unwrap(), Interval::Weeks(1));
    assert_eq!(Interval::parse("15s").unwrap(), Interval::Seconds(15));
    assert_eq!(Interval::parse("+5").unwrap(), Interval::Minutes(5));
    assert_eq!(Interval::parse("005").unwrap(), Interval::Minutes(5));
    assert_eq!(Interval::parse("1D").unwrap().canonical(), "D");
}

#[test]
fn canonical_names_read_back_for_all_supported_intervals() {
    let names = [
        "10S", "15S", "30S", "45S", "1", "2", "3", "4", "5", "8", "10", "15", "20", "30", "45",
        "60", "90", "120", "180", "240", "360", "480", "720", "D", "2D", "3D", "4D", "10D", "W",
    ];
    for name in names {
        let interval = Interval::parse(name).unwrap();
        assert_eq!(interval.canonical(), name);
        if let Some(native) = interval.binance_interval() {
            assert_eq!(Interval::from_binance_interval(native), Some(interval));
        }
    }
    assert_eq!(Interval::from_binance_interval("1M"), None);
}

#[test]
fn buckets_start_at_or_before_the_instant() {
    let five = Interval::parse("5").unwrap();
    assert_eq!(five.bucket_start_ms(0), 0);
    assert_eq!(five.bucket_start_ms(299_999), 0);
    assert_eq!(five.bucket_start_ms(300_000), 300_000);
    assert_eq!(five.bucket_start_ms(-1), -300_000);
    assert_eq!(five.bucket_start_ms_with_anchor(1_000, 60_000), -240_000);
    assert_eq!(five.bucket_start_ms_with_anchor(400_000, 60_000), 360_000);
}

#[test]
fn weeks_start_on_monday() {
    let week = Interval::parse("W").unwrap();
    // The epoch is a Thursday.
    assert_eq!(week.bucket_start_ms(0), -259_200_000);
    assert_eq!(week.bucket_start_ms(345_599_999), -259_200_000);
    assert_eq!(week.bucket_start_ms(345_600_000), 345_600_000);
    assert_eq!(week.bucket_start_ms(-259_200_001), -864_000_000);
    // 2026-09-05 is a Saturday.
    assert_eq!(
        week.bucket_start_ms(1_788_566_400_000 + 5_000),
        1_788_566_400_000 - 5 * 86_400_000
    );
    // Outside the calendar the epoch's week stands.
    assert_eq!(week.bucket_start_ms(i64::MAX), -259_200_000);
    assert_eq!(week.bucket_start_ms(i64::MIN), -259_200_000);
    assert_eq!(week.bucket_start_ms(8_210_266_876_800_000), -259_200_000);
    assert_ne!(week.bucket_start_ms(8_210_266_876_799_999), -259_200_000);
    assert_eq!(week.bucket_start_ms(-8_334_601_228_800_001), -259_200_000);
    assert_ne!(week.bucket_start_ms(-8_334_601_228_800_000), -259_200_000);
}

#[test]
fn anchors_follow_the_most_frequent_phase() {
    let three = Interval::parse("3D").unwrap();
    let day = 86_400_000i64;
    assert!(three.uses_symbol_specific_binance_alignment());
    assert!(!Interval::parse("D").unwrap().uses_symbol_specific_binance_alignment());
    assert!(!Interval::parse("4D").unwrap().uses_symbol_specific_binance_alignment());
    assert_eq!(three.infer_bucket_anchor_ms(&[]), None);
    assert_eq!(
        three.infer_bucket_anchor_ms(&[day, 4 * day, 5 * day]),
        Some(day)
    );
    // Of several the largest phase counts.
    assert_eq!(
        three.infer_bucket_anchor_ms(&[day, 2 * day, 3 * day]),
        Some(2 * day)
    );
}

#[test]
fn buckets_that_do_not_fit_are_told() {
    let five = Interval::parse("5").unwrap();
    assert!(five.can_bucket(0));
    assert!(!five.can_bucket(i64::MIN));
    assert!(!Interval::Minutes(0).can_bucket(0));
    assert!(Interval::Weeks(1).can_bucket(i64::MIN));
    assert!(five.can_bucket_with_anchor(0, 7));
    assert!(!five.can_bucket_with_anchor(i64::MAX, -1));
}
