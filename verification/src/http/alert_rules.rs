//! Which alerts can be made and how they change.

use crate::config::settled;
use crate::domain::interval::{parsed_interval, Interval};
use crate::domain::number::{calculates, Calc, Double};
use crate::http::routes::{bad_request, HealthTarget, HttpError, BAD_REQUEST, CONFLICT};
use crate::json::{json_error, json_fault};
use crate::storage::sqlite::Alert;
use crate::text::{begins_with, chars_of, same_text, string_of, to_upper, trim};
use vstd::prelude::*;
use vstd::string::*;

verus! {

/// A wish for an alert.
#[derive(Debug, PartialEq, Eq)]
pub struct AlertRequest {
    pub symbol: String,
    pub interval: String,
    pub price: Double,
    pub direction: String,
    pub expires_at: Option<i64>,
    pub webhook_url: String,
    pub message_template: String,
    pub status: Option<String>,
}

/// A wish to change an alert. What is not given stays; an expiry can be given
/// as none.
#[derive(Debug, PartialEq, Eq)]
pub struct AlertPatch {
    pub symbol: Option<String>,
    pub interval: Option<String>,
    pub price: Option<Double>,
    pub direction: Option<String>,
    pub expires_at: Option<Option<i64>>,
    pub webhook_url: Option<String>,
    pub message_template: Option<String>,
    pub status: Option<String>,
}

/// The series is one of those that are followed.
pub open spec fn followed(
    targets: Seq<HealthTarget>,
    symbol: Seq<char>,
    interval: Seq<char>,
) -> bool {
    exists|i: int|
        0 <= i < targets.len() && (#[trigger] targets[i]).symbol@ == symbol
            && targets[i].interval@ == interval
}

pub open spec fn known_direction(direction: Seq<char>) -> bool {
    direction == "cross_up"@ || direction == "cross_down"@ || direction == "cross_any"@
}

pub open spec fn web_address(url: Seq<char>) -> bool {
    "http://"@.is_prefix_of(url) || "https://"@.is_prefix_of(url)
}

/// What is wrong with an alert, given what is wrong with its message as JSON:
/// the first thing that is, in this order.
pub open spec fn alert_fault(
    targets: Seq<HealthTarget>,
    symbol: Seq<char>,
    interval: Seq<char>,
    price: Double,
    direction: Seq<char>,
    url: Seq<char>,
    message_fault: Option<Seq<char>>,
) -> Option<Seq<char>> {
    if parsed_interval(interval) is None {
        Some("invalid interval: "@ + interval)
    } else if !followed(targets, settled(symbol), parsed_interval(interval)->0.name()) {
        Some("symbol and interval are not subscribed"@)
    } else if !price.finite() || price.nan() || price.place() <= 0 {
        Some("price must be a positive finite number"@)
    } else if !known_direction(direction) {
        Some("direction must be cross_up, cross_down, or cross_any"@)
    } else if !web_address(url) {
        Some("webhookUrl must be an http(s) URL"@)
    } else if message_fault is Some {
        Some("messageTemplate must be valid JSON: "@ + message_fault->0)
    } else {
        None
    }
}

/// The outcome of judging an alert: its series, or the refusal.
pub open spec fn judged(
    symbol: Seq<char>,
    interval: Seq<char>,
    fault: Option<Seq<char>>,
    r: Result<(String, String), HttpError>,
) -> bool {
    match fault {
        Some(text) => r matches Err(error) && error.says(BAD_REQUEST, text),
        None => {
            &&& r matches Ok(series)
            &&& series.0@ == settled(symbol)
            &&& parsed_interval(interval) matches Some(found) && series.1@ == found.name()
        },
    }
}

fn is_followed(targets: &Vec<HealthTarget>, symbol: &str, interval: &str) -> (r: bool)
    ensures
        r == followed(targets@, symbol@, interval@),
{
    let mut i: usize = 0;
    while i < targets.len()
        invariant
            i <= targets@.len(),
            forall|j: int|
                0 <= j < i ==> !((#[trigger] targets@[j]).symbol@ == symbol@
                    && targets@[j].interval@ == interval@),
        decreases targets@.len() - i,
    {
        if same_text(targets[i].symbol.as_str(), symbol) && same_text(
            targets[i].interval.as_str(),
            interval,
        ) {
            return true;
        }
        i += 1;
    }
    false
}

/// Judges an alert, given what is wrong with its message as JSON.
pub fn judge_alert(
    targets: &Vec<HealthTarget>,
    symbol: &str,
    interval: &str,
    price: Double,
    direction: &str,
    url: &str,
    message_fault: Option<String>,
) -> (r: Result<(String, String), HttpError>)
    ensures
        judged(
            symbol@,
            interval@,
            alert_fault(
                targets@,
                symbol@,
                interval@,
                price,
                direction@,
                url@,
                match message_fault {
                    Some(reason) => Some(reason@),
                    None => None,
                },
            ),
            r,
        ),
{
    let upper = to_upper(string_of(&trim(&chars_of(symbol))).as_str());
    let name = match Interval::parse(interval) {
        Ok(found) => found.canonical(),
        Err(error) => {
            return Err(bad_request(error.message()));
        },
    };
    if !is_followed(targets, upper.as_str(), name.as_str()) {
        return Err(bad_request("symbol and interval are not subscribed".to_owned()));
    }
    if !price.is_finite() || !price.is_positive() {
        return Err(bad_request("price must be a positive finite number".to_owned()));
    }
    if !(same_text(direction, "cross_up") || same_text(direction, "cross_down") || same_text(
        direction,
        "cross_any",
    )) {
        return Err(
            bad_request("direction must be cross_up, cross_down, or cross_any".to_owned()),
        );
    }
    let address = chars_of(url);
    if !(begins_with(&address, &chars_of("http://")) || begins_with(
        &address,
        &chars_of("https://"),
    )) {
        return Err(bad_request("webhookUrl must be an http(s) URL".to_owned()));
    }
    match message_fault {
        Some(reason) => Err(
            bad_request(
                "messageTemplate must be valid JSON: ".to_owned().concat(reason.as_str()),
            ),
        ),
        None => Ok((upper, name)),
    }
}

/// Judges an alert: whether its series is followed and all its parts can
/// stand.
pub fn validate_alert(
    targets: &Vec<HealthTarget>,
    symbol: &str,
    interval: &str,
    price: Double,
    direction: &str,
    url: &str,
    message: &str,
) -> (r: Result<(String, String), HttpError>)
    ensures
        judged(
            symbol@,
            interval@,
            alert_fault(
                targets@,
                symbol@,
                interval@,
                price,
                direction@,
                url@,
                json_fault(message@),
            ),
            r,
        ),
{
    judge_alert(targets, symbol, interval, price, direction, url, json_error(message))
}

/// The bits of the distance from one to the next larger number.
pub const EPSILON_BITS: u64 = 0x3CB0_0000_0000_0000;

/// `distance` is what `calc` makes of how far two prices are apart.
pub open spec fn apart<F: Fn(Calc) -> Double>(
    calc: F,
    a: Double,
    b: Double,
    distance: Double,
) -> bool {
    exists|difference: Double| #[trigger]
        call_ensures(calc, (Calc::Subtract(a, b),), difference) && call_ensures(
            calc,
            (Calc::Absolute(difference),),
            distance,
        )
}

/// Whether two prices are the same line, by `calc`.
pub open spec fn one_line<F: Fn(Calc) -> Double>(calc: F, a: Double, b: Double, same: bool) -> bool {
    exists|distance: Double| #[trigger]
        apart(calc, a, b, distance) && same == distance.lt(Double { bits: EPSILON_BITS })
}

fn is_one_line<F: Fn(Calc) -> Double>(a: Double, b: Double, calc: &F) -> (r: bool)
    requires
        calculates(*calc),
    ensures
        one_line(*calc, a, b, r),
{
    let difference = calc(Calc::Subtract(a, b));
    let distance = calc(Calc::Absolute(difference));
    assert(apart(*calc, a, b, distance));
    distance.less_than(Double { bits: EPSILON_BITS })
}

/// The alert is of the series, and not the one to be left out.
pub open spec fn rival(
    alert: Alert,
    own_id: Option<i64>,
    symbol: Seq<char>,
    interval: Seq<char>,
) -> bool {
    &&& own_id != Some(alert.id)
    &&& alert.symbol@ == symbol
    &&& alert.interval@ == interval
}

/// Whether one of the alerts of the series is at the price.
pub open spec fn line_taken<F: Fn(Calc) -> Double>(
    existing: Seq<Alert>,
    own_id: Option<i64>,
    symbol: Seq<char>,
    interval: Seq<char>,
    price: Double,
    calc: F,
    taken: bool,
) -> bool {
    if taken {
        exists|i: int|
            0 <= i < existing.len() && rival(#[trigger] existing[i], own_id, symbol, interval)
                && one_line(calc, existing[i].price, price, true)
    } else {
        forall|i: int|
            0 <= i < existing.len() && rival(#[trigger] existing[i], own_id, symbol, interval)
                ==> one_line(calc, existing[i].price, price, false)
    }
}

fn is_line_taken<F: Fn(Calc) -> Double>(
    existing: &Vec<Alert>,
    own_id: Option<i64>,
    symbol: &str,
    interval: &str,
    price: Double,
    calc: &F,
) -> (r: bool)
    requires
        calculates(*calc),
    ensures
        line_taken(existing@, own_id, symbol@, interval@, price, *calc, r),
{
    let mut i: usize = 0;
    while i < existing.len()
        invariant
            i <= existing@.len(),
            calculates(*calc),
            forall|j: int|
                0 <= j < i && rival(#[trigger] existing@[j], own_id, symbol@, interval@)
                    ==> one_line(*calc, existing@[j].price, price, false),
        decreases existing@.len() - i,
    {
        let alert = &existing[i];
        let own = match own_id {
            Some(id) => id == alert.id,
            None => false,
        };
        if !own && same_text(alert.symbol.as_str(), symbol) && same_text(
            alert.interval.as_str(),
            interval,
        ) {
            if is_one_line(alert.price, price, calc) {
                assert(rival(existing@[i as int], own_id, symbol@, interval@));
                return true;
            }
        }
        i += 1;
    }
    false
}

fn conflict() -> (r: HttpError)
    ensures
        r.says(CONFLICT, "an alert already exists at this price line"@),
{
    HttpError {
        status: CONFLICT,
        message: "an alert already exists at this price line".to_owned(),
    }
}

pub open spec fn known_status(status: Seq<char>) -> bool {
    status == "active"@ || status == "disabled"@
}

fn is_known_status(status: &str) -> (r: bool)
    ensures
        r == known_status(status@),
{
    same_text(status, "active") || same_text(status, "disabled")
}

/// The status that is asked for; active if none is.
pub open spec fn wished_status(request: AlertRequest) -> Seq<char> {
    match request.status {
        Some(status) => status@,
        None => "active"@,
    }
}

/// The alert has what the request asks for, and has not fired yet.
pub open spec fn made_as_asked(request: AlertRequest, now_ms: i64, alert: Alert) -> bool {
    &&& alert.id == 0
    &&& alert.symbol@ == settled(request.symbol@)
    &&& parsed_interval(request.interval@) matches Some(found) && alert.interval@ == found.name()
    &&& alert.price == request.price
    &&& alert.direction@ == request.direction@
    &&& alert.status@ == wished_status(request)
    &&& alert.expires_at == request.expires_at
    &&& alert.webhook_url@ == request.webhook_url@
    &&& alert.message_template@ == request.message_template@
    &&& alert.created_at == now_ms
    &&& alert.updated_at == now_ms
    &&& alert.triggered_at is None
    &&& alert.delivery_status is None
    &&& alert.delivery_error is None
}

/// The outcome of a request, given what is wrong with it and whether the price
/// line is taken: a fault is refused first, a taken line next, an unknown
/// status last.
pub open spec fn create_outcome(
    request: AlertRequest,
    fault: Option<Seq<char>>,
    taken: bool,
    now_ms: i64,
    r: Result<Alert, HttpError>,
) -> bool {
    match fault {
        Some(text) => r matches Err(error) && error.says(BAD_REQUEST, text),
        None => if taken {
            r matches Err(error) && error.says(
                CONFLICT,
                "an alert already exists at this price line"@,
            )
        } else if !known_status(wished_status(request)) {
            r matches Err(error) && error.says(BAD_REQUEST, "status must be active or disabled"@)
        } else {
            r matches Ok(alert) && made_as_asked(request, now_ms, alert)
        },
    }
}

/// What is wrong with a request.
pub open spec fn request_fault(targets: Seq<HealthTarget>, request: AlertRequest) -> Option<
    Seq<char>,
> {
    alert_fault(
        targets,
        request.symbol@,
        request.interval@,
        request.price,
        request.direction@,
        request.webhook_url@,
        json_fault(request.message_template@),
    )
}

/// Judges a request by itself, before it is held against other alerts.
pub fn check_request(targets: &Vec<HealthTarget>, request: &AlertRequest) -> (r: Result<
    (String, String),
    HttpError,
>)
    ensures
        judged(request.symbol@, request.interval@, request_fault(targets@, *request), r),
{
    validate_alert(
        targets,
        request.symbol.as_str(),
        request.interval.as_str(),
        request.price,
        request.direction.as_str(),
        request.webhook_url.as_str(),
        request.message_template.as_str(),
    )
}

/// A request is decided, with the finding whether its line is taken.
pub open spec fn creation<F: Fn(Calc) -> Double>(
    targets: Seq<HealthTarget>,
    request: AlertRequest,
    existing: Seq<Alert>,
    calc: F,
    now_ms: i64,
    taken: bool,
    r: Result<Alert, HttpError>,
) -> bool {
    let fault = request_fault(targets, request);
    &&& create_outcome(request, fault, taken, now_ms, r)
    &&& fault is None ==> line_taken(
        existing,
        None,
        settled(request.symbol@),
        parsed_interval(request.interval@)->0.name(),
        request.price,
        calc,
        taken,
    )
}

/// The alert that a request makes. `existing` are the alerts that there are.
pub fn create_alert<F: Fn(Calc) -> Double>(
    targets: &Vec<HealthTarget>,
    request: &AlertRequest,
    existing: &Vec<Alert>,
    calc: &F,
    now_ms: i64,
) -> (r: Result<Alert, HttpError>)
    requires
        calculates(*calc),
    ensures
        exists|taken: bool| #[trigger]
            creation(targets@, *request, existing@, *calc, now_ms, taken, r),
{
    let (symbol, interval) = match check_request(targets, request) {
        Ok(series) => series,
        Err(error) => {
            assert(creation(
                targets@,
                *request,
                existing@,
                *calc,
                now_ms,
                true,
                Err::<Alert, HttpError>(error),
            ));
            return Err(error);
        },
    };
    let taken = is_line_taken(
        existing,
        None,
        symbol.as_str(),
        interval.as_str(),
        request.price,
        calc,
    );
    let r = if taken {
        Err(conflict())
    } else {
        make_alert(request, symbol, interval, now_ms)
    };
    assert(creation(targets@, *request, existing@, *calc, now_ms, taken, r));
    r
}

/// The alert of a request with which nothing is wrong.
fn make_alert(request: &AlertRequest, symbol: String, interval: String, now_ms: i64) -> (r: Result<
    Alert,
    HttpError,
>)
    requires
        symbol@ == settled(request.symbol@),
        parsed_interval(request.interval@) matches Some(found) && interval@ == found.name(),
    ensures
        create_outcome(*request, None, false, now_ms, r),
{
    let status = match &request.status {
        Some(status) => status.clone(),
        None => "active".to_owned(),
    };
    if !is_known_status(status.as_str()) {
        return Err(bad_request("status must be active or disabled".to_owned()));
    }
    Ok(
        Alert {
            id: 0,
            symbol,
            interval,
            price: request.price,
            direction: request.direction.clone(),
            status,
            expires_at: request.expires_at,
            webhook_url: request.webhook_url.clone(),
            message_template: request.message_template.clone(),
            created_at: now_ms,
            updated_at: now_ms,
            triggered_at: None,
            delivery_status: None,
            delivery_error: None,
        },
    )
}

/// The text that is given, or else the old one.
pub open spec fn text_or(given: Option<String>, old_text: String) -> Seq<char> {
    match given {
        Some(text) => text@,
        None => old_text@,
    }
}

fn choose_text(given: &Option<String>, old_text: &String) -> (r: String)
    ensures
        r@ == text_or(*given, *old_text),
{
    match given {
        Some(text) => text.clone(),
        None => old_text.clone(),
    }
}

pub open spec fn patched_price(alert: Alert, patch: AlertPatch) -> Double {
    match patch.price {
        Some(price) => price,
        None => alert.price,
    }
}

/// What is wrong with a change.
pub open spec fn patch_fault(targets: Seq<HealthTarget>, alert: Alert, patch: AlertPatch) -> Option<
    Seq<char>,
> {
    alert_fault(
        targets,
        text_or(patch.symbol, alert.symbol),
        text_or(patch.interval, alert.interval),
        patched_price(alert, patch),
        text_or(patch.direction, alert.direction),
        text_or(patch.webhook_url, alert.webhook_url),
        json_fault(text_or(patch.message_template, alert.message_template)),
    )
}

/// The alert with the change. Making it active forgets that it has fired.
pub open spec fn changed_as_asked(before: Alert, patch: AlertPatch, now_ms: i64, after: Alert) -> bool {
    let wakes = patch.status matches Some(status) && status@ == "active"@;
    &&& after.id == before.id
    &&& after.symbol@ == settled(text_or(patch.symbol, before.symbol))
    &&& parsed_interval(text_or(patch.interval, before.interval)) matches Some(found)
        && after.interval@ == found.name()
    &&& after.price == patched_price(before, patch)
    &&& after.direction@ == text_or(patch.direction, before.direction)
    &&& after.status@ == text_or(patch.status, before.status)
    &&& after.expires_at == match patch.expires_at {
        Some(expires_at) => expires_at,
        None => before.expires_at,
    }
    &&& after.webhook_url@ == text_or(patch.webhook_url, before.webhook_url)
    &&& after.message_template@ == text_or(patch.message_template, before.message_template)
    &&& after.created_at == before.created_at
    &&& after.updated_at == now_ms
    &&& if wakes {
        after.triggered_at is None && after.delivery_status is None && after.delivery_error is None
    } else {
        after.triggered_at == before.triggered_at && after.delivery_status
            == before.delivery_status && after.delivery_error == before.delivery_error
    }
}

/// The outcome of a change, in the order of `create_outcome`.
pub open spec fn update_outcome(
    before: Alert,
    patch: AlertPatch,
    fault: Option<Seq<char>>,
    taken: bool,
    now_ms: i64,
    r: Result<Alert, HttpError>,
) -> bool {
    match fault {
        Some(text) => r matches Err(error) && error.says(BAD_REQUEST, text),
        None => if taken {
            r matches Err(error) && error.says(
                CONFLICT,
                "an alert already exists at this price line"@,
            )
        } else if patch.status matches Some(status) && !known_status(status@) {
            r matches Err(error) && error.says(BAD_REQUEST, "status must be active or disabled"@)
        } else {
            r matches Ok(alert) && changed_as_asked(before, patch, now_ms, alert)
        },
    }
}

/// Judges a change by itself, before it is held against other alerts.
pub fn check_patch(targets: &Vec<HealthTarget>, alert: &Alert, patch: &AlertPatch) -> (r: Result<
    (String, String),
    HttpError,
>)
    ensures
        judged(
            text_or(patch.symbol, alert.symbol),
            text_or(patch.interval, alert.interval),
            patch_fault(targets@, *alert, *patch),
            r,
        ),
{
    let symbol = choose_text(&patch.symbol, &alert.symbol);
    let interval = choose_text(&patch.interval, &alert.interval);
    let price = match patch.price {
        Some(price) => price,
        None => alert.price,
    };
    let direction = choose_text(&patch.direction, &alert.direction);
    let url = choose_text(&patch.webhook_url, &alert.webhook_url);
    let message = choose_text(&patch.message_template, &alert.message_template);
    validate_alert(
        targets,
        symbol.as_str(),
        interval.as_str(),
        price,
        direction.as_str(),
        url.as_str(),
        message.as_str(),
    )
}

/// A change is decided, with the finding whether its line is taken.
pub open spec fn change<F: Fn(Calc) -> Double>(
    targets: Seq<HealthTarget>,
    alert: Alert,
    patch: AlertPatch,
    existing: Seq<Alert>,
    calc: F,
    now_ms: i64,
    taken: bool,
    r: Result<Alert, HttpError>,
) -> bool {
    let fault = patch_fault(targets, alert, patch);
    &&& update_outcome(alert, patch, fault, taken, now_ms, r)
    &&& fault is None ==> line_taken(
        existing,
        Some(alert.id),
        settled(text_or(patch.symbol, alert.symbol)),
        parsed_interval(text_or(patch.interval, alert.interval))->0.name(),
        patched_price(alert, patch),
        calc,
        taken,
    )
}

/// The alert that a change leads to.
pub fn update_alert<F: Fn(Calc) -> Double>(
    targets: &Vec<HealthTarget>,
    alert: Alert,
    patch: &AlertPatch,
    existing: &Vec<Alert>,
    calc: &F,
    now_ms: i64,
) -> (r: Result<Alert, HttpError>)
    requires
        calculates(*calc),
    ensures
        exists|taken: bool| #[trigger]
            change(targets@, alert, *patch, existing@, *calc, now_ms, taken, r),
{
    let price = match patch.price {
        Some(price) => price,
        None => alert.price,
    };
    let (symbol, interval) = match check_patch(targets, &alert, patch) {
        Ok(series) => series,
        Err(error) => {
            assert(change(
                targets@,
                alert,
                *patch,
                existing@,
                *calc,
                now_ms,
                true,
                Err::<Alert, HttpError>(error),
            ));
            return Err(error);
        },
    };
    let taken = is_line_taken(
        existing,
        Some(alert.id),
        symbol.as_str(),
        interval.as_str(),
        price,
        calc,
    );
    let ghost before = alert;
    let r = if taken {
        Err(conflict())
    } else {
        change_alert(alert, patch, symbol, interval, now_ms)
    };
    assert(change(targets@, before, *patch, existing@, *calc, now_ms, taken, r));
    r
}

/// The alert with a change with which nothing is wrong.
fn change_alert(
    alert: Alert,
    patch: &AlertPatch,
    symbol: String,
    interval: String,
    now_ms: i64,
) -> (r: Result<Alert, HttpError>)
    requires
        symbol@ == settled(text_or(patch.symbol, alert.symbol)),
        parsed_interval(text_or(patch.interval, alert.interval)) matches Some(found)
            && interval@ == found.name(),
    ensures
        update_outcome(alert, *patch, None, false, now_ms, r),
{
    let mut wakes = false;
    match &patch.status {
        Some(status) => {
            if !is_known_status(status.as_str()) {
                return Err(bad_request("status must be active or disabled".to_owned()));
            }
            wakes = same_text(status.as_str(), "active");
        },
        None => {},
    }
    let price = match patch.price {
        Some(price) => price,
        None => alert.price,
    };
    let direction = choose_text(&patch.direction, &alert.direction);
    let status = choose_text(&patch.status, &alert.status);
    let webhook_url = choose_text(&patch.webhook_url, &alert.webhook_url);
    let message_template = choose_text(&patch.message_template, &alert.message_template);
    let expires_at = match patch.expires_at {
        Some(expires_at) => expires_at,
        None => alert.expires_at,
    };
    let (triggered_at, delivery_status, delivery_error) = if wakes {
        (None, None, None)
    } else {
        (alert.triggered_at, alert.delivery_status, alert.delivery_error)
    };
    Ok(
        Alert {
            id: alert.id,
            symbol,
            interval,
            price,
            direction,
            status,
            expires_at,
            webhook_url,
            message_template,
            created_at: alert.created_at,
            updated_at: now_ms,
            triggered_at,
            delivery_status,
            delivery_error,
        },
    )
}

/// An alert that was made has nothing wrong with it, and its line was free.
pub proof fn accepted_alerts_can_stand(
    targets: Seq<HealthTarget>,
    request: AlertRequest,
    taken: bool,
    now_ms: i64,
    alert: Alert,
)
    requires
        create_outcome(
            request,
            request_fault(targets, request),
            taken,
            now_ms,
            Ok::<Alert, HttpError>(alert),
        ),
    ensures
        !taken,
        followed(targets, alert.symbol@, alert.interval@),
        alert.price.finite() && alert.price.place() > 0,
        known_direction(alert.direction@),
        web_address(alert.webhook_url@),
        json_fault(alert.message_template@) is None,
        known_status(alert.status@),
{
}

/// An alert that was changed has nothing wrong with it, and its line was free.
/// Only its status can be another than those that can be asked for, if it was
/// so before.
pub proof fn changed_alerts_can_stand(
    targets: Seq<HealthTarget>,
    before: Alert,
    patch: AlertPatch,
    taken: bool,
    now_ms: i64,
    after: Alert,
)
    requires
        update_outcome(
            before,
            patch,
            patch_fault(targets, before, patch),
            taken,
            now_ms,
            Ok::<Alert, HttpError>(after),
        ),
    ensures
        !taken,
        followed(targets, after.symbol@, after.interval@),
        after.price.finite() && after.price.place() > 0,
        known_direction(after.direction@),
        web_address(after.webhook_url@),
        json_fault(after.message_template@) is None,
        known_status(after.status@) || after.status@ == before.status@,
{
}

/// An alert can stand exactly if its interval is supported and followed for the
/// symbol, its price is above zero and below infinity, its direction is one of
/// the three, its address is on the web, and its message is sound.
pub proof fn sound_alerts_have_no_fault(
    targets: Seq<HealthTarget>,
    symbol: Seq<char>,
    interval: Seq<char>,
    price: Double,
    direction: Seq<char>,
    url: Seq<char>,
    message_fault: Option<Seq<char>>,
)
    ensures
        alert_fault(targets, symbol, interval, price, direction, url, message_fault) is None <==> {
            &&& parsed_interval(interval) matches Some(found) && exists|i: int|
                0 <= i < targets.len() && (#[trigger] targets[i]).symbol@ == settled(symbol)
                    && targets[i].interval@ == found.name()
            &&& 0 < price.bits < 0x7ff0_0000_0000_0000
            &&& direction == "cross_up"@ || direction == "cross_down"@ || direction == "cross_any"@
            &&& "http://"@.is_prefix_of(url) || "https://"@.is_prefix_of(url)
            &&& message_fault is None
        },
        price.bits == 0 || price.bits >= 0x7ff0_0000_0000_0000 ==> alert_fault(
            targets,
            symbol,
            interval,
            price,
            direction,
            url,
            message_fault,
        ) is Some,
{
}

/// Two lines are one exactly if they are less than the smallest step above one
/// apart.
pub proof fn lines_are_one_within_a_step<F: Fn(Calc) -> Double>(
    calc: F,
    f: spec_fn(Calc) -> Double,
    a: Double,
    b: Double,
    same: bool,
)
    requires
        crate::domain::number::computes(calc, f),
        one_line(calc, a, b, same),
    ensures
        same <==> f(Calc::Absolute(f(Calc::Subtract(a, b)))).lt(
            Double { bits: 0x3cb0_0000_0000_0000 },
        ),
{
    let distance = choose|distance: Double| #[trigger]
        apart(calc, a, b, distance) && same == distance.lt(Double { bits: EPSILON_BITS });
    let difference = choose|difference: Double| #[trigger]
        call_ensures(calc, (Calc::Subtract(a, b),), difference) && call_ensures(
            calc,
            (Calc::Absolute(difference),),
            distance,
        );
}

/// The alert is another one on the line: of the same series, and so near.
pub open spec fn on_the_line(
    f: spec_fn(Calc) -> Double,
    alert: Alert,
    symbol: Seq<char>,
    interval: Seq<char>,
    price: Double,
) -> bool {
    &&& alert.symbol@ == symbol
    &&& alert.interval@ == interval
    &&& f(Calc::Absolute(f(Calc::Subtract(alert.price, price)))).lt(
        Double { bits: 0x3cb0_0000_0000_0000 },
    )
}

proof fn lines_are_taken_by_another<F: Fn(Calc) -> Double>(
    existing: Seq<Alert>,
    own_id: Option<i64>,
    symbol: Seq<char>,
    interval: Seq<char>,
    price: Double,
    calc: F,
    f: spec_fn(Calc) -> Double,
    taken: bool,
)
    requires
        crate::domain::number::computes(calc, f),
        line_taken(existing, own_id, symbol, interval, price, calc, taken),
    ensures
        taken <==> exists|i: int|
            0 <= i < existing.len() && on_the_line(
                f,
                #[trigger] existing[i],
                symbol,
                interval,
                price,
            ) && own_id != Some(existing[i].id),
{
    if taken {
        let i = choose|i: int|
            0 <= i < existing.len() && rival(#[trigger] existing[i], own_id, symbol, interval)
                && one_line(calc, existing[i].price, price, true);
        lines_are_one_within_a_step(calc, f, existing[i].price, price, true);
        assert(on_the_line(f, existing[i], symbol, interval, price));
    } else {
        assert forall|i: int|
            0 <= i < existing.len() && own_id != Some((#[trigger] existing[i]).id) implies !on_the_line(
            f,
            existing[i],
            symbol,
            interval,
            price,
        ) by {
            if existing[i].symbol@ == symbol && existing[i].interval@ == interval {
                assert(rival(existing[i], own_id, symbol, interval));
                lines_are_one_within_a_step(calc, f, existing[i].price, price, false);
            }
        }
    }
}

/// A new alert is made exactly if it can stand, no alert is on its line, and
/// its status, where it has one, is active or disabled. A line that is taken is
/// a conflict; anything else that is wrong is a bad request.
pub proof fn alerts_are_made_on_free_lines<F: Fn(Calc) -> Double>(
    targets: Seq<HealthTarget>,
    request: AlertRequest,
    existing: Seq<Alert>,
    calc: F,
    f: spec_fn(Calc) -> Double,
    now_ms: i64,
    taken: bool,
    r: Result<Alert, HttpError>,
)
    requires
        crate::domain::number::computes(calc, f),
        creation(targets, request, existing, calc, now_ms, taken, r),
    ensures
        ({
            let sound = request_fault(targets, request) is None;
            let symbol = settled(request.symbol@);
            let interval = parsed_interval(request.interval@)->0.name();
            let free = forall|i: int|
                0 <= i < existing.len() ==> !on_the_line(
                    f,
                    #[trigger] existing[i],
                    symbol,
                    interval,
                    request.price,
                );
            let status_known = request.status is None || request.status->0@ == "active"@
                || request.status->0@ == "disabled"@;
            &&& r is Ok <==> sound && free && status_known
            &&& r matches Err(error) ==> (error.status == 409 <==> sound && !free)
            &&& r matches Err(error) ==> error.status == 409 || error.status == 400
            &&& r matches Ok(alert) ==> {
                &&& alert.symbol@ == symbol && alert.interval@ == interval
                &&& alert.price == request.price && alert.direction@ == request.direction@
                &&& alert.webhook_url@ == request.webhook_url@
                &&& alert.message_template@ == request.message_template@
                &&& alert.expires_at == request.expires_at
                &&& request.status is None ==> alert.status@ == "active"@
                &&& request.status matches Some(status) ==> alert.status@ == status@
                &&& alert.created_at == now_ms && alert.updated_at == now_ms
                &&& alert.triggered_at is None && alert.delivery_status is None
                    && alert.delivery_error is None
            }
        }),
{
    let symbol = settled(request.symbol@);
    let interval = parsed_interval(request.interval@)->0.name();
    if request_fault(targets, request) is None {
        lines_are_taken_by_another(existing, None, symbol, interval, request.price, calc, f, taken);
    }
}

/// An alert is changed exactly if it can stand as changed, no other alert is on
/// its line, and the status, where one is given, is active or disabled. What is
/// not given stays as it was; waking an alert clears what it had told.
pub proof fn alerts_change_as_far_as_asked<F: Fn(Calc) -> Double>(
    targets: Seq<HealthTarget>,
    before: Alert,
    patch: AlertPatch,
    existing: Seq<Alert>,
    calc: F,
    f: spec_fn(Calc) -> Double,
    now_ms: i64,
    taken: bool,
    r: Result<Alert, HttpError>,
)
    requires
        crate::domain::number::computes(calc, f),
        change(targets, before, patch, existing, calc, now_ms, taken, r),
    ensures
        ({
            let sound = patch_fault(targets, before, patch) is None;
            let given_symbol = if patch.symbol is Some {
                patch.symbol->0@
            } else {
                before.symbol@
            };
            let given_interval = if patch.interval is Some {
                patch.interval->0@
            } else {
                before.interval@
            };
            let price = if patch.price is Some {
                patch.price->0
            } else {
                before.price
            };
            let symbol = settled(given_symbol);
            let interval = parsed_interval(given_interval)->0.name();
            let free = forall|i: int|
                0 <= i < existing.len() && (#[trigger] existing[i]).id != before.id
                    ==> !on_the_line(f, existing[i], symbol, interval, price);
            let status_known = patch.status is None || patch.status->0@ == "active"@
                || patch.status->0@ == "disabled"@;
            &&& r is Ok <==> sound && free && status_known
            &&& r matches Err(error) ==> (error.status == 409 <==> sound && !free)
            &&& r matches Err(error) ==> error.status == 409 || error.status == 400
            &&& r matches Ok(after) ==> {
                &&& after.id == before.id && after.created_at == before.created_at
                &&& after.updated_at == now_ms
                &&& after.symbol@ == symbol && after.interval@ == interval && after.price == price
                &&& patch.direction is None ==> after.direction@ == before.direction@
                &&& patch.direction matches Some(given) ==> after.direction@ == given@
                &&& patch.status is None ==> after.status@ == before.status@
                &&& patch.status matches Some(given) ==> after.status@ == given@
                &&& patch.webhook_url is None ==> after.webhook_url@ == before.webhook_url@
                &&& patch.webhook_url matches Some(given) ==> after.webhook_url@ == given@
                &&& patch.message_template is None ==> after.message_template@
                    == before.message_template@
                &&& patch.message_template matches Some(given) ==> after.message_template@ == given@
                &&& patch.expires_at is None ==> after.expires_at == before.expires_at
                &&& patch.expires_at matches Some(given) ==> after.expires_at == given
                &&& patch.status is Some && patch.status->0@ == "active"@
                    ==> after.triggered_at is None && after.delivery_status is None
                    && after.delivery_error is None
                &&& patch.status is None || patch.status->0@ == "disabled"@ ==> after.triggered_at
                    == before.triggered_at && after.delivery_status == before.delivery_status
                    && after.delivery_error == before.delivery_error
            }
        }),
{
    reveal_strlit("active");
    reveal_strlit("disabled");
    assert("active"@.len() == 6 && "disabled"@.len() == 8);
    if patch_fault(targets, before, patch) is None {
        lines_are_taken_by_another(
            existing,
            Some(before.id),
            settled(text_or(patch.symbol, before.symbol)),
            parsed_interval(text_or(patch.interval, before.interval))->0.name(),
            patched_price(before, patch),
            calc,
            f,
            taken,
        );
    }
}

/// What is wrong with an alert is told in this order, the first alone: the
/// interval, what is followed, the price, the direction, the address, the
/// message.
pub proof fn faults_are_told_in_order(
    targets: Seq<HealthTarget>,
    symbol: Seq<char>,
    interval: Seq<char>,
    price: Double,
    direction: Seq<char>,
    url: Seq<char>,
    message_fault: Option<Seq<char>>,
)
    ensures
        ({
            let told = alert_fault(targets, symbol, interval, price, direction, url, message_fault);
            let named = parsed_interval(interval) is Some;
            let followed = named && exists|i: int|
                0 <= i < targets.len() && (#[trigger] targets[i]).symbol@ == settled(symbol)
                    && targets[i].interval@ == parsed_interval(interval)->0.name();
            let priced = 0 < price.bits < 0x7ff0_0000_0000_0000;
            let directed = direction == "cross_up"@ || direction == "cross_down"@ || direction
                == "cross_any"@;
            let addressed = "http://"@.is_prefix_of(url) || "https://"@.is_prefix_of(url);
            &&& !named ==> told == Some("invalid interval: "@ + interval)
            &&& named && !followed ==> told == Some("symbol and interval are not subscribed"@)
            &&& followed && !priced ==> told == Some("price must be a positive finite number"@)
            &&& followed && priced && !directed ==> told == Some(
                "direction must be cross_up, cross_down, or cross_any"@,
            )
            &&& followed && priced && directed && !addressed ==> told == Some(
                "webhookUrl must be an http(s) URL"@,
            )
            &&& followed && priced && directed && addressed && message_fault is Some ==> told
                == Some("messageTemplate must be valid JSON: "@ + message_fault->0)
        }),
{
}

} // verus!
