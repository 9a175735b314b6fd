use crypto_candlestick::domain::candle::Candle;
use crypto_candlestick::domain::interval::Interval;
use crypto_candlestick::domain::number::{Calc, Double};
use crypto_candlestick::engine::aggregator::{AggregationError, Aggregator, TradeTick};

fn d(value: f64) -> Double {
    Double::from_bits(value.to_bits())
}

fn calc(step: Calc) -> Double {
    let f = |value: Double| f64::from_bits(value.bits);
    d(match step {
        Calc::Start => std::iter::empty::<f64>().sum::<f64>(),
        Calc::Count(n) => n as f64,
        Calc::Add(a, b) => f(a) + f(b),
        Calc::Subtract(a, b) => f(a) - f(b),
        Calc::Multiply(a, b) => f(a) * f(b),
        Calc::Divide(a, b) => f(a) / f(b),
        Calc::Absolute(a) => f(a).abs(),
        Calc::Negate(a) => -f(a),
    })
}

fn trade(
    agg: &mut Aggregator,
    timestamp_ms: i64,
    price: f64,
    quantity: f64,
) -> Result<Option<Candle>, AggregationError> {
    agg.ingest_trade(TradeTick::new(timestamp_ms, d(price), d(quantity)), &calc)
}

#[test]
fn rolls_seconds_into_correct_bucket() {
    let mut agg = Aggregator::new(Interval::parse("15S").unwrap());

    let first = trade(&mut agg, 1_000, 100.0, 2.0).unwrap();
    assert!(first.is_none());

    let closed = trade(&mut agg, 16_000, 101.0, 1.0).unwrap();
    let candle = closed.expect("expected first candle to close");

    assert_eq!(candle.open_time, 0);
    assert_eq!(candle.close_time, 14_999);
    assert_eq!(candle.open, d(100.0));
    assert_eq!(candle.high, d(100.0));
    assert_eq!(candle.low, d(100.0));
    assert_eq!(candle.close, d(100.0));
    assert_eq!(candle.volume, d(2.0));
    assert_eq!(candle.trade_count, 1);
    assert!(candle.is_closed);
}

#[test]
fn rolls_trades_into_symbol_anchored_three_day_bucket() {
    let interval = Interval::parse("3D").unwrap();
    let anchor = 1_788_566_400_000i64; // 2026-09-05 00:00 UTC
    let mut agg = Aggregator::new(interval);
    agg.set_bucket_anchor_ms(anchor);

    trade(&mut agg, 1_788_687_118_271, 100.0, 1.0).unwrap();
    let candle = agg.current().unwrap();

    assert_eq!(candle.open_time, anchor);
    assert_eq!(candle.close_time, anchor + interval.as_millis() as i64 - 1);
}

#[test]
fn merges_trades_of_one_bucket() {
    let mut agg = Aggregator::new(Interval::parse("1").unwrap());
    for (time, price, quantity) in [(0, 100.0, 1.0), (10_000, 105.0, 2.0), (59_999, 95.0, 3.0)] {
        assert_eq!(trade(&mut agg, time, price, quantity), Ok(None));
    }
    let candle = agg.current().unwrap();
    assert_eq!(candle.open, d(100.0));
    assert_eq!(candle.high, d(105.0));
    assert_eq!(candle.low, d(95.0));
    assert_eq!(candle.close, d(95.0));
    assert_eq!(candle.volume, d(6.0));
    assert_eq!(candle.quote_volume, d(100.0 + 210.0 + 285.0));
    assert_eq!(candle.trade_count, 3);
    assert!(!candle.is_closed);

    let flushed = agg.flush().unwrap();
    assert!(flushed.is_closed);
    assert_eq!(flushed.close_time, 59_999);
    assert_eq!(agg.flush(), None);
    assert_eq!(agg.current(), None);
}

#[test]
fn refuses_inputs_of_an_earlier_bucket() {
    let mut agg = Aggregator::new(Interval::parse("1").unwrap());
    trade(&mut agg, 60_000, 100.0, 1.0).unwrap();
    let before = agg.current();
    let refused = trade(&mut agg, 59_999, 90.0, 1.0);
    assert_eq!(refused, Err(AggregationError::OutOfOrder));
    assert_eq!(
        AggregationError::OutOfOrder.message(),
        "out-of-order input for interval"
    );
    assert_eq!(agg.current(), before);
    agg.reset();
    assert_eq!(agg.current(), None);
    assert_eq!(trade(&mut agg, 59_999, 90.0, 1.0), Ok(None));
}

#[test]
fn tells_which_inputs_fit() {
    let mut agg = Aggregator::new(Interval::parse("1").unwrap());
    let mut candle = Candle::from_trade(0, d(2.0), d(1.5), &calc);
    assert_eq!(candle.quote_volume, d(3.0));
    assert!(agg.can_take(&candle));
    assert!(agg.can_take_trade(&TradeTick::new(0, d(1.0), d(1.0))));
    assert!(!agg.can_take_trade(&TradeTick::new(i64::MAX, d(1.0), d(1.0))));
    candle.trade_count = u64::MAX;
    agg.ingest_candle(candle, &calc).unwrap();
    assert!(!agg.can_take(&candle));
    candle.open_time = 60_000;
    assert!(agg.can_take(&candle));
    candle.open_time = i64::MAX;
    assert!(!agg.can_take(&candle));
    candle.open_time = i64::MIN;
    assert!(!agg.can_take(&candle));
}

#[test]
fn compares_numbers_as_they_are() {
    let values = [
        f64::NEG_INFINITY,
        -1.5,
        -f64::MIN_POSITIVE,
        -0.0,
        0.0,
        5e-324,
        1.0,
        1.5,
        f64::MAX,
        f64::INFINITY,
        f64::NAN,
    ];
    for a in values {
        assert_eq!(d(a).is_nan(), a.is_nan());
        assert_eq!(d(a).is_finite(), a.is_finite());
        assert_eq!(d(a).is_positive(), a > 0.0);
        for b in values {
            assert_eq!(d(a).less_than(d(b)), a < b);
            assert_eq!(d(a).at_most(d(b)), a <= b);
            assert_eq!(d(a).equals(d(b)), a == b);
            if a.is_nan() != b.is_nan() || (!a.is_nan() && a != b) {
                assert_eq!(f64::from_bits(d(a).max(d(b)).bits), a.max(b));
                assert_eq!(f64::from_bits(d(a).min(d(b)).bits), a.min(b));
            }
        }
    }
}
