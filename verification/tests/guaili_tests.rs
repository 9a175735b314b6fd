use crypto_candlestick::domain::candle::Candle;
use crypto_candlestick::domain::number::{Calc, Double};
use crypto_candlestick::indicators::guaili::{
    compute_guaili, GuailiConfig, GuailiPoint, MaType,
};

fn d(value: f64) -> Double {
    Double::from_bits(value.to_bits())
}

fn f(value: Double) -> f64 {
    f64::from_bits(value.bits)
}

fn calc(step: Calc) -> Double {
    d(match step {
        Calc::Start => std::iter::empty::<f64>().sum::<f64>(),
        Calc::Count(n) => n as f64,
        Calc::Add(a, b) => f(a) + f(b),
        Calc::Subtract(a, b) => f(a) - f(b),
        Calc::Multiply(a, b) => f(a) * f(b),
        Calc::Divide(a, b) => f(a) / f(b),
        Calc::Absolute(a) => f(a).abs(),
        Calc::Negate(a) => -f(a),
    })
}

fn whole(value: Double) -> i32 {
    f(value) as i32
}

fn compute(candles: &Vec<Candle>, config: GuailiConfig) -> Vec<GuailiPoint> {
    compute_guaili(candles, config, &calc, &whole)
}

fn candle(index: i64, high: f64, low: f64, close: f64) -> Candle {
    Candle {
        open_time: index * 60_000,
        close_time: index * 60_000 + 59_999,
        open: d(close),
        high: d(high),
        low: d(low),
        close: d(close),
        volume: d(1.0),
        quote_volume: d(close),
        trade_count: 1,
        is_closed: true,
    }
}

fn config(ma_type: MaType) -> GuailiConfig {
    GuailiConfig {
        ma_length: 3,
        ma_type,
        atr_len: 1,
        atr_percent_len: 20,
        max_atr_rank: d(100.0),
        slope_mul: d(0.1),
        use_slope: true,
    }
}

#[test]
fn computes_positive_guaili_from_distance_above_ema() {
    let candles = (0..20)
        .map(|index| {
            let close = 100.0 + index as f64 * 10.0;
            candle(index, close + 1.0, close - 1.0, close)
        })
        .collect::<Vec<_>>();

    let values = compute(&candles, config(MaType::Ema));

    let latest = values.last().expect("expected latest guaili value");
    assert!((f(latest.ma) - 280.000_019_073_486_3).abs() < 0.000_001);
    assert!((f(latest.atr14) - 8.798_424_795_031_17).abs() < 0.000_001);
    assert!((f(latest.guaili) - 1.042_983_536_760_88).abs() < 0.000_001);
    assert_eq!(latest.value, 10);
    assert!(latest.rank_filter);
    assert!(latest.long_trend);
    assert!(!latest.short_trend);
}

#[test]
fn computes_negative_guaili_from_distance_below_ema() {
    let candles = (0..20)
        .map(|index| {
            let close = 300.0 - index as f64 * 10.0;
            candle(index, close + 1.0, close - 1.0, close)
        })
        .collect::<Vec<_>>();

    let values = compute(&candles, config(MaType::Ema));

    let latest = values.last().expect("expected latest guaili value");
    assert!((f(latest.ma) - 119.999_980_926_513_67).abs() < 0.000_001);
    assert!((f(latest.guaili) + 1.042_983_536_760_88).abs() < 0.000_001);
    assert_eq!(latest.value, -10);
    assert!(!latest.long_trend);
    assert!(latest.short_trend);
}

#[test]
fn averages_take_their_windows() {
    let mut candles = vec![
        candle(0, 11.0, 9.0, 10.0),
        candle(1, 21.0, 19.0, 20.0),
        candle(2, 31.0, 29.0, 30.0),
        candle(3, 61.0, 59.0, 60.0),
    ];
    for (index, volume) in [1.0, 2.0, 3.0, 0.0].iter().enumerate() {
        candles[index].volume = d(*volume);
    }
    let averages = |ma_type: MaType| -> Vec<f64> {
        compute(&candles, config(ma_type))
            .iter()
            .map(|point| f(point.ma))
            .collect()
    };
    assert_eq!(averages(MaType::Sma), vec![10.0, 15.0, 20.0, 110.0 / 3.0]);
    assert_eq!(averages(MaType::Ema), vec![10.0, 15.0, 22.5, 41.25]);
    assert_eq!(
        averages(MaType::Smma),
        vec![
            10.0,
            40.0 / 3.0,
            (40.0 / 3.0 * 2.0 + 30.0) / 3.0,
            ((40.0 / 3.0 * 2.0 + 30.0) / 3.0 * 2.0 + 60.0) / 3.0
        ]
    );
    assert_eq!(
        averages(MaType::Wma),
        vec![10.0, 50.0 / 3.0, 140.0 / 6.0, 260.0 / 6.0]
    );
    assert_eq!(
        averages(MaType::Vwma),
        vec![10.0, 50.0 / 3.0, 140.0 / 6.0, 26.0]
    );

    for candle in candles.iter_mut() {
        candle.volume = d(0.0);
    }
    let plain: Vec<f64> = compute(&candles, config(MaType::Vwma))
        .iter()
        .map(|point| f(point.ma))
        .collect();
    assert_eq!(plain, vec![10.0, 15.0, 20.0, 110.0 / 3.0]);
}

#[test]
fn ranks_start_with_a_full_window() {
    let candles: Vec<Candle> = (0..4)
        .map(|index| candle(index, 101.0 + index as f64, 100.0, 100.5))
        .collect();
    let mut setting = config(MaType::Ema);
    setting.atr_percent_len = 3;
    setting.max_atr_rank = d(99.0);
    let points = compute(&candles, setting);
    assert_eq!(points[0].atr_rank, None);
    assert_eq!(points[1].atr_rank, None);
    assert_eq!(points[2].atr_rank, Some(d(100.0)));
    assert!(!points[2].rank_filter);
    assert!(!points[0].rank_filter);
    assert!(compute(&Vec::new(), setting).is_empty());
}

#[test]
fn candles_on_the_average_do_not_deviate() {
    let candles = vec![candle(0, 11.0, 9.0, 10.0), candle(1, 12.0, 9.0, 10.0)];
    let points = compute(&candles, config(MaType::Ema));
    assert!(points.iter().all(|point| point.guaili == d(0.0)));
    assert!(points.iter().all(|point| point.value == 0));
    // No trend before three steps, nor without a slope.
    assert!(points.iter().all(|point| !point.long_trend && !point.short_trend));
}

#[test]
fn standard_configuration() {
    let standard = GuailiConfig::default();
    assert_eq!(standard.ma_length, 20);
    assert_eq!(standard.ma_type, MaType::Ema);
    assert_eq!(standard.atr_len, 1);
    assert_eq!(standard.atr_percent_len, 20);
    assert_eq!(f(standard.max_atr_rank), 100.0);
    assert_eq!(f(standard.slope_mul), 0.1);
    assert!(standard.use_slope);
}

#[test]
fn points_do_not_depend_on_later_candles() {
    let candles: Vec<Candle> = (0..12)
        .map(|index| {
            let close = 100.0 + ((index * 7) % 5) as f64;
            candle(index, close + 2.0, close - 1.5, close)
        })
        .collect();
    for ma_type in [
        MaType::Sma,
        MaType::Ema,
        MaType::Smma,
        MaType::Wma,
        MaType::Vwma,
    ] {
        let all = compute(&candles, config(ma_type));
        for n in 0..=candles.len() {
            let part = compute(&candles[..n].to_vec(), config(ma_type));
            assert_eq!(part, all[..n].to_vec());
        }
        assert!(all.iter().all(|point| !(point.long_trend && point.short_trend)));
        assert_eq!(all[5].open_time, candles[5].open_time);
    }
}
