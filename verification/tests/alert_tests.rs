use crypto_candlestick::alerts::{
    after_attempt, delivery_body_error, delivery_status, delivery_status_error,
    evaluate_price_alerts, refuse_body, render_alert_message, DeliveryStep,
};
use crypto_candlestick::domain::number::{Calc, Double};
use crypto_candlestick::http::alert_rules::{
    check_patch, check_request, judge_alert, validate_alert,
};
use crypto_candlestick::http::handlers::{create_alert, update_alert, AlertPatch, AlertRequest};
use crypto_candlestick::http::routes::HealthTarget;
use crypto_candlestick::storage::sqlite::Alert;
use std::collections::HashMap;

fn d(value: f64) -> Double {
    Double::from_bits(value.to_bits())
}

fn calc(step: Calc) -> Double {
    let f = |value: Double| f64::from_bits(value.bits);
    d(match step {
        Calc::Start => std::iter::empty::<f64>().sum::<f64>(),
        Calc::Count(n) => n as f64,
        Calc::Add(a, b) => f(a) + f(b),
        Calc::Subtract(a, b) => f(a) - f(b),
        Calc::Multiply(a, b) => f(a) * f(b),
        Calc::Divide(a, b) => f(a) / f(b),
        Calc::Absolute(a) => f(a).abs(),
        Calc::Negate(a) => -f(a),
    })
}

fn targets() -> Vec<HealthTarget> {
    vec![HealthTarget {
        symbol: "BTCUSDT".to_string(),
        interval: "5".to_string(),
    }]
}

fn request() -> AlertRequest {
    AlertRequest {
        symbol: " btcusdt ".to_string(),
        interval: "5".to_string(),
        price: d(100.0),
        direction: "cross_up".to_string(),
        expires_at: Some(9),
        webhook_url: "https://example.com/hook".to_string(),
        message_template: "{\"price\": \"{{price}}\"}".to_string(),
        status: None,
    }
}

fn alert(id: i64, price: f64, direction: &str) -> Alert {
    Alert {
        id,
        symbol: "BTCUSDT".to_string(),
        interval: "5".to_string(),
        price: d(price),
        direction: direction.to_string(),
        status: "active".to_string(),
        expires_at: None,
        webhook_url: "http://example.com".to_string(),
        message_template: "{}".to_string(),
        created_at: 1,
        updated_at: 1,
        triggered_at: Some(5),
        delivery_status: Some("failed".to_string()),
        delivery_error: Some("x".to_string()),
    }
}

fn no_patch() -> AlertPatch {
    AlertPatch {
        symbol: None,
        interval: None,
        price: None,
        direction: None,
        expires_at: None,
        webhook_url: None,
        message_template: None,
        status: None,
    }
}

#[test]
fn makes_alerts_as_asked() {
    let made = create_alert(&targets(), &request(), &Vec::new(), &calc, 7).unwrap();
    assert_eq!(made.id, 0);
    assert_eq!(made.symbol, "BTCUSDT");
    assert_eq!(made.interval, "5");
    assert_eq!(made.price, d(100.0));
    assert_eq!(made.direction, "cross_up");
    assert_eq!(made.status, "active");
    assert_eq!(made.expires_at, Some(9));
    assert_eq!(made.created_at, 7);
    assert_eq!(made.updated_at, 7);
    assert_eq!(made.triggered_at, None);
    let mut asleep = request();
    asleep.status = Some("disabled".to_string());
    let made = create_alert(&targets(), &asleep, &Vec::new(), &calc, 7).unwrap();
    assert_eq!(made.status, "disabled");
}

#[test]
fn refuses_alerts_for_the_first_fault() {
    let refusal = |change: &dyn Fn(&mut AlertRequest)| {
        let mut wish = request();
        change(&mut wish);
        let error = create_alert(&targets(), &wish, &vec![alert(1, 100.0, "cross_any")], &calc, 7)
            .unwrap_err();
        (error.status, error.message)
    };
    assert_eq!(
        refusal(&|wish| wish.interval = "7".to_string()),
        (400, "invalid interval: 7".to_string())
    );
    assert_eq!(
        refusal(&|wish| wish.symbol = "ETHUSDT".to_string()),
        (400, "symbol and interval are not subscribed".to_string())
    );
    for price in [0.0, -1.0, f64::NAN, f64::INFINITY] {
        assert_eq!(
            refusal(&|wish| wish.price = d(price)),
            (400, "price must be a positive finite number".to_string())
        );
    }
    assert_eq!(
        refusal(&|wish| wish.direction = "up".to_string()),
        (
            400,
            "direction must be cross_up, cross_down, or cross_any".to_string()
        )
    );
    assert_eq!(
        refusal(&|wish| wish.webhook_url = "ftp://x".to_string()),
        (400, "webhookUrl must be an http(s) URL".to_string())
    );
    let (status, message) = refusal(&|wish| wish.message_template = "{".to_string());
    assert_eq!(status, 400);
    assert!(message.starts_with("messageTemplate must be valid JSON: EOF"));
    // The line is taken.
    assert_eq!(
        refusal(&|wish| wish.status = Some("odd".to_string())),
        (409, "an alert already exists at this price line".to_string())
    );
    assert_eq!(
        refusal(&|wish| {
            wish.price = d(101.0);
            wish.status = Some("odd".to_string());
        }),
        (400, "status must be active or disabled".to_string())
    );
}

#[test]
fn lines_are_the_same_within_the_smallest_distance() {
    let at = |price: f64| {
        let mut wish = request();
        wish.price = d(price);
        create_alert(&targets(), &wish, &vec![alert(1, 1.0, "cross_any")], &calc, 7)
    };
    assert_eq!(at(1.0 + f64::EPSILON / 2.0).unwrap_err().status, 409);
    assert!(at(1.0 + f64::EPSILON).is_ok());
    assert!(at(1.0 - f64::EPSILON / 2.0).is_err());
}

#[test]
fn judges_alerts_by_what_is_wrong_with_the_message() {
    let judged = judge_alert(
        &targets(),
        "BTCUSDT",
        "5",
        d(1.0),
        "cross_any",
        "http://x",
        Some("why".to_string()),
    );
    assert_eq!(
        judged.unwrap_err().message,
        "messageTemplate must be valid JSON: why"
    );
    let fine = judge_alert(&targets(), "BTCUSDT", "5", d(1.0), "cross_any", "http://x", None);
    assert_eq!(fine, Ok(("BTCUSDT".to_string(), "5".to_string())));
    let read = validate_alert(&targets(), "btcusdt", "5", d(1.0), "cross_down", "http://x", "[1]");
    assert_eq!(read, Ok(("BTCUSDT".to_string(), "5".to_string())));
}

#[test]
fn changes_alerts_as_asked() {
    let others = vec![alert(1, 100.0, "cross_any"), alert(2, 200.0, "cross_any")];
    let same = update_alert(
        &targets(),
        alert(1, 100.0, "cross_any"),
        &no_patch(),
        &others,
        &calc,
        7,
    )
    .unwrap();
    assert_eq!(same.id, 1);
    assert_eq!(same.updated_at, 7);
    assert_eq!(same.created_at, 1);
    assert_eq!(same.triggered_at, Some(5));

    let mut patch = no_patch();
    patch.price = Some(d(200.0));
    let taken = update_alert(
        &targets(),
        alert(1, 100.0, "cross_any"),
        &patch,
        &others,
        &calc,
        7,
    )
    .unwrap_err();
    assert_eq!(taken.status, 409);

    patch.price = Some(d(300.0));
    patch.direction = Some("cross_down".to_string());
    patch.expires_at = Some(Some(11));
    patch.status = Some("active".to_string());
    let awake = update_alert(
        &targets(),
        alert(1, 100.0, "cross_any"),
        &patch,
        &others,
        &calc,
        7,
    )
    .unwrap();
    assert_eq!(awake.price, d(300.0));
    assert_eq!(awake.direction, "cross_down");
    assert_eq!(awake.expires_at, Some(11));
    assert_eq!(awake.triggered_at, None);
    assert_eq!(awake.delivery_status, None);
    assert_eq!(awake.delivery_error, None);

    patch.status = Some("disabled".to_string());
    patch.expires_at = Some(None);
    let asleep = update_alert(
        &targets(),
        alert(1, 100.0, "cross_any"),
        &patch,
        &others,
        &calc,
        7,
    )
    .unwrap();
    assert_eq!(asleep.status, "disabled");
    assert_eq!(asleep.expires_at, None);
    assert_eq!(asleep.triggered_at, Some(5));

    patch.status = Some("odd".to_string());
    let odd = update_alert(
        &targets(),
        alert(1, 100.0, "cross_any"),
        &patch,
        &others,
        &calc,
        7,
    )
    .unwrap_err();
    assert_eq!(odd.message, "status must be active or disabled");
    patch.interval = Some("1".to_string());
    let elsewhere = update_alert(
        &targets(),
        alert(1, 100.0, "cross_any"),
        &patch,
        &others,
        &calc,
        7,
    )
    .unwrap_err();
    assert_eq!(elsewhere.message, "symbol and interval are not subscribed");
}

#[test]
fn alerts_fire_when_the_price_changes_sides() {
    let alerts = vec![
        alert(1, 100.0, "cross_up"),
        alert(2, 100.0, "cross_down"),
        alert(3, 100.0, "cross_any"),
    ];
    let mut sides: HashMap<i64, i8> = HashMap::new();
    let mut at = |price: f64| -> Vec<(usize, &'static str)> {
        evaluate_price_alerts(&mut sides, &alerts, d(price))
            .iter()
            .map(|hit| (hit.index, hit.direction))
            .collect()
    };
    assert!(at(99.0).is_empty());
    assert!(at(99.5).is_empty());
    assert_eq!(at(101.0), vec![(0, "cross_up"), (2, "cross_up")]);
    assert_eq!(at(99.0), vec![(1, "cross_down"), (2, "cross_down")]);
    // On the line the side is forgotten.
    assert!(at(100.0).is_empty());
    assert!(at(101.0).is_empty());
    assert!(at(f64::NAN).is_empty());
}

#[test]
fn messages_have_the_values_of_the_alert() {
    let rendered = render_alert_message(
        "{{ticker}} {{symbol}} {{exchange}} {{interval}} {{price}} {{close}} {{alertId}} {{time}} {{other}}",
        &alert(-7, 1.0, "cross_any"),
        "101.5",
        -12,
    );
    assert_eq!(
        rendered,
        "BTCUSDT BTCUSDT BINANCE 5 101.5 101.5 -7 -12 {{other}}"
    );
    // Values are replaced in turn, in values too.
    assert_eq!(
        render_alert_message("{{price}}", &alert(7, 1.0, "cross_any"), "{{time}}", 3),
        "3"
    );
}

#[test]
fn deliveries_are_tried_three_times() {
    assert_eq!(after_attempt(0, false), DeliveryStep::RetryAfter(250));
    assert_eq!(after_attempt(1, false), DeliveryStep::RetryAfter(500));
    assert_eq!(after_attempt(2, false), DeliveryStep::GiveUp);
    assert_eq!(after_attempt(2, true), DeliveryStep::Delivered);
    assert_eq!(delivery_body_error("{\"a\": 1}"), None);
    assert_eq!(
        delivery_body_error("nope").unwrap(),
        "invalid rendered message JSON: expected ident at line 1 column 2"
    );
    assert_eq!(
        refuse_body(Some("y".to_string())).unwrap(),
        "invalid rendered message JSON: y"
    );
    assert_eq!(
        delivery_status_error("500 Internal Server Error"),
        "webhook returned 500 Internal Server Error"
    );
    assert_eq!(delivery_status(true), "success");
    assert_eq!(delivery_status(false), "failed");
}

#[test]
fn requests_and_changes_are_judged_by_themselves_first() {
    let series = check_request(&targets(), &request()).unwrap();
    assert_eq!(series, ("BTCUSDT".to_string(), "5".to_string()));
    let mut bad = request();
    bad.price = d(0.0);
    let error = check_request(&targets(), &bad).unwrap_err();
    assert_eq!(error.status, 400);
    assert_eq!(error.message, "price must be a positive finite number");
    let mut patch = no_patch();
    let old = create_alert(&targets(), &request(), &Vec::new(), &calc, 1).unwrap();
    assert!(check_patch(&targets(), &old, &patch).is_ok());
    patch.direction = Some("sideways".to_string());
    let error = check_patch(&targets(), &old, &patch).unwrap_err();
    assert_eq!(
        error.message,
        "direction must be cross_up, cross_down, or cross_any"
    );
}
