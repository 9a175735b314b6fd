//! Price alerts: when a price crosses an alert's line, what is sent then, and
//! how often it is tried.

use crate::domain::number::Double;
use crate::json::{json_error, json_fault};
use crate::storage::sqlite::Alert;
use crate::text::{chars_of, replace, replaced, same_text, signed_decimal, string_of, write_signed};
use std::collections::HashMap;
use vstd::prelude::*;
use vstd::string::*;

verus! {

broadcast use vstd::std_specs::hash::group_hash_axioms;

// ---------------------------------------------------------------------------
// Crossing a line.
// ---------------------------------------------------------------------------

/// The side of the line that a price is on: above, below, or on it.
pub open spec fn side_of(price: Double, line: Double) -> i8 {
    if line.lt(price) {
        1
    } else if price.lt(line) {
        (-1) as i8
    } else {
        0
    }
}

/// The last known side of an alert's line; none is on the line.
pub open spec fn last_side(sides: Map<i64, i8>, id: i64) -> i8 {
    if sides.contains_key(id) {
        sides[id]
    } else {
        0
    }
}

/// Going from one side to the other is what the alert waits for.
pub open spec fn crosses(direction: Seq<char>, previous: i8, side: i8) -> bool {
    &&& side != 0
    &&& previous != 0
    &&& side != previous
    &&& (direction == "cross_up"@ && previous < 0 && side > 0) || (direction == "cross_down"@
        && previous > 0 && side < 0) || direction == "cross_any"@
}

/// The way that the price went.
pub open spec fn way(previous: i8, side: i8) -> Seq<char> {
    if side > previous {
        "cross_up"@
    } else {
        "cross_down"@
    }
}

/// The sides after a price has been held against the alerts in turn.
pub open spec fn sides_after(sides: Map<i64, i8>, alerts: Seq<Alert>, price: Double) -> Map<i64, i8>
    decreases alerts.len(),
{
    if alerts.len() == 0 {
        sides
    } else {
        sides_after(sides, alerts.drop_last(), price).insert(
            alerts.last().id,
            side_of(price, alerts.last().price),
        )
    }
}

/// The alerts that fire, by number, with the way that the price went.
pub open spec fn fired(sides: Map<i64, i8>, alerts: Seq<Alert>, price: Double) -> Seq<
    (int, Seq<char>),
>
    decreases alerts.len(),
{
    if alerts.len() == 0 {
        Seq::empty()
    } else {
        let earlier = fired(sides, alerts.drop_last(), price);
        let alert = alerts.last();
        let previous = last_side(sides_after(sides, alerts.drop_last(), price), alert.id);
        let side = side_of(price, alert.price);
        if crosses(alert.direction@, previous, side) {
            earlier.push((alerts.len() - 1, way(previous, side)))
        } else {
            earlier
        }
    }
}

/// An alert that fires: its number in the list, and the way of the price.
#[derive(Debug, Clone, Copy, PartialEq, Eq)]
pub struct AlertHit {
    pub index: usize,
    pub direction: &'static str,
}

pub open spec fn hits_of(hits: Seq<AlertHit>) -> Seq<(int, Seq<char>)> {
    hits.map_values(|hit: AlertHit| (hit.index as int, hit.direction@))
}

fn price_side(price: Double, line: Double) -> (r: i8)
    ensures
        r == side_of(price, line),
{
    if line.less_than(price) {
        1
    } else if price.less_than(line) {
        -1
    } else {
        0
    }
}

fn has_crossed(direction: &str, previous: i8, side: i8) -> (r: bool)
    ensures
        r == crosses(direction@, previous, side),
{
    side != 0 && previous != 0 && side != previous && ((same_text(direction, "cross_up")
        && previous < 0 && side > 0) || (same_text(direction, "cross_down") && previous > 0 && side
        < 0) || same_text(direction, "cross_any"))
}

/// Holds a price against the alerts in turn, remembers the sides and tells
/// which alerts fire.
pub fn evaluate_price_alerts(sides: &mut HashMap<i64, i8>, alerts: &Vec<Alert>, price: Double) -> (r:
    Vec<AlertHit>)
    ensures
        final(sides)@ == sides_after(old(sides)@, alerts@, price),
        hits_of(r@) == fired(old(sides)@, alerts@, price),
{
    let mut hits: Vec<AlertHit> = Vec::new();
    let mut i: usize = 0;
    assert(alerts@.take(0).len() == 0);
    assert(hits_of(hits@) =~= Seq::<(int, Seq<char>)>::empty());
    while i < alerts.len()
        invariant
            i <= alerts@.len(),
            sides@ == sides_after(old(sides)@, alerts@.take(i as int), price),
            hits_of(hits@) == fired(old(sides)@, alerts@.take(i as int), price),
        decreases alerts@.len() - i,
    {
        let alert = &alerts[i];
        let ghost hits0 = hits@;
        assert(alerts@.take(i + 1).drop_last() =~= alerts@.take(i as int));
        let side: i8 = price_side(price, alert.price);
        let ghost sides0 = sides@;
        let previous: i8 = match sides.insert(alert.id, side) {
            Some(known) => known,
            None => 0,
        };
        assert(previous == last_side(sides0, alert.id));
        if has_crossed(alert.direction.as_str(), previous, side) {
            let direction = if side > previous {
                "cross_up"
            } else {
                "cross_down"
            };
            hits.push(AlertHit { index: i, direction });
            assert(hits_of(hits@) =~= hits_of(hits0).push((i as int, direction@)));
        }
        i += 1;
    }
    assert(alerts@.take(i as int) =~= alerts@);
    hits
}

/// A price that is seen for the first time, or on the same side as before, or
/// on the line, fires nothing.
pub proof fn alerts_fire_on_a_change_of_side(direction: Seq<char>, previous: i8, side: i8)
    ensures
        !crosses(direction, 0, side),
        !crosses(direction, previous, 0),
        !crosses(direction, side, side),
{
}

/// An alert for both ways fires exactly when an alert for one of them would.
pub proof fn any_is_up_or_down(previous: i8, side: i8)
    requires
        previous == -1 || previous == 0 || previous == 1,
        side == -1 || side == 0 || side == 1,
    ensures
        crosses("cross_any"@, previous, side) <==> crosses("cross_up"@, previous, side) || crosses(
            "cross_down"@,
            previous,
            side,
        ),
        crosses("cross_up"@, previous, side) ==> way(previous, side) == "cross_up"@,
        crosses("cross_down"@, previous, side) ==> way(previous, side) == "cross_down"@,
{
    reveal_strlit("cross_up");
    reveal_strlit("cross_down");
    reveal_strlit("cross_any");
    assert("cross_up"@.len() == 8 && "cross_down"@.len() == 10 && "cross_any"@.len() == 9);
}

// ---------------------------------------------------------------------------
// The message.
// ---------------------------------------------------------------------------

/// The template with the alert's values in place of the names in braces, one
/// name after the other.
pub open spec fn rendered(
    template: Seq<char>,
    symbol: Seq<char>,
    interval: Seq<char>,
    id: int,
    price: Seq<char>,
    now_ms: int,
) -> Seq<char> {
    let s = replaced(template, "{{ticker}}"@, symbol);
    let s = replaced(s, "{{symbol}}"@, symbol);
    let s = replaced(s, "{{exchange}}"@, "BINANCE"@);
    let s = replaced(s, "{{interval}}"@, interval);
    let s = replaced(s, "{{price}}"@, price);
    let s = replaced(s, "{{close}}"@, price);
    let s = replaced(s, "{{alertId}}"@, signed_decimal(id));
    replaced(s, "{{time}}"@, signed_decimal(now_ms))
}

/// The message of an alert. `price_text` is the price, written out.
pub fn render_alert_message(template: &str, alert: &Alert, price_text: &str, now_ms: i64) -> (r:
    String)
    ensures
        r@ == rendered(
            template@,
            alert.symbol@,
            alert.interval@,
            alert.id as int,
            price_text@,
            now_ms as int,
        ),
{
    let symbol = chars_of(alert.symbol.as_str());
    let price = chars_of(price_text);
    let s = replace(&chars_of(template), &chars_of("{{ticker}}"), &symbol);
    let s = replace(&s, &chars_of("{{symbol}}"), &symbol);
    let s = replace(&s, &chars_of("{{exchange}}"), &chars_of("BINANCE"));
    let s = replace(&s, &chars_of("{{interval}}"), &chars_of(alert.interval.as_str()));
    let s = replace(&s, &chars_of("{{price}}"), &price);
    let s = replace(&s, &chars_of("{{close}}"), &price);
    let s = replace(&s, &chars_of("{{alertId}}"), &write_signed(alert.id));
    let s = replace(&s, &chars_of("{{time}}"), &write_signed(now_ms));
    string_of(&s)
}

// ---------------------------------------------------------------------------
// Sending it.
// ---------------------------------------------------------------------------

pub const DELIVERY_ATTEMPTS: u32 = 3;

pub const DELIVERY_TIMEOUT_SECS: u64 = 5;

/// What follows an attempt to send a message.
#[derive(Debug, Clone, Copy, PartialEq, Eq, Structural)]
pub enum DeliveryStep {
    Delivered,
    RetryAfter(u64),
    GiveUp,
}

/// After a failure the next attempt waits, twice as long each time; the last
/// failure is final.
pub open spec fn delivery_step(attempt: u32, delivered: bool) -> DeliveryStep {
    if delivered {
        DeliveryStep::Delivered
    } else if attempt == 0 {
        DeliveryStep::RetryAfter(250)
    } else if attempt == 1 {
        DeliveryStep::RetryAfter(500)
    } else {
        DeliveryStep::GiveUp
    }
}

/// What follows attempt number `attempt`, from zero on.
pub fn after_attempt(attempt: u32, delivered: bool) -> (r: DeliveryStep)
    ensures
        r == delivery_step(attempt, delivered),
{
    if delivered {
        DeliveryStep::Delivered
    } else if attempt == 0 {
        DeliveryStep::RetryAfter(250)
    } else if attempt == 1 {
        DeliveryStep::RetryAfter(500)
    } else {
        DeliveryStep::GiveUp
    }
}

/// A message is tried at most `DELIVERY_ATTEMPTS` times.
pub proof fn delivery_ends(attempt: u32)
    requires
        attempt + 1 >= DELIVERY_ATTEMPTS,
    ensures
        !(delivery_step(attempt, false) is RetryAfter),
{
}

/// Why a message cannot be sent, given what is wrong with it as JSON.
pub open spec fn body_refusal(fault: Option<Seq<char>>) -> Option<Seq<char>> {
    match fault {
        Some(reason) => Some("invalid rendered message JSON: "@ + reason),
        None => None,
    }
}

pub fn refuse_body(fault: Option<String>) -> (r: Option<String>)
    ensures
        match r {
            Some(reason) => fault matches Some(f) && body_refusal(Some(f@)) == Some(reason@),
            None => fault is None,
        },
{
    match fault {
        Some(reason) => Some("invalid rendered message JSON: ".to_owned().concat(reason.as_str())),
        None => None,
    }
}

/// Why a message cannot be sent, if it cannot.
pub fn delivery_body_error(body: &str) -> (r: Option<String>)
    ensures
        match r {
            Some(reason) => body_refusal(json_fault(body@)) == Some(reason@),
            None => json_fault(body@) is None,
        },
{
    refuse_body(json_error(body))
}

/// What is recorded when the receiver answers with another status.
pub fn delivery_status_error(status: &str) -> (r: String)
    ensures
        r@ == "webhook returned "@ + status@,
{
    "webhook returned ".to_owned().concat(status)
}

/// How the outcome of a delivery is recorded.
pub fn delivery_status(delivered: bool) -> (r: &'static str)
    ensures
        r@ == if delivered {
            "success"@
        } else {
            "failed"@
        },
{
    if delivered {
        "success"
    } else {
        "failed"
    }
}

// ---------------------------------------------------------------------------
// Which alerts fire.
// ---------------------------------------------------------------------------

/// No two alerts have one id.
pub open spec fn ids_differ(alerts: Seq<Alert>) -> bool {
    forall|i: int, j: int|
        0 <= i < j < alerts.len() ==> (#[trigger] alerts[i]).id != (#[trigger] alerts[j]).id
}

/// Afterwards the side of each alert is remembered by its own line: above it,
/// below it, or on it. The sides of other ids stay.
pub proof fn sides_follow_each_line(sides: Map<i64, i8>, alerts: Seq<Alert>, price: Double)
    requires
        ids_differ(alerts),
    ensures
        forall|i: int|
            #![trigger alerts[i]]
            0 <= i < alerts.len() ==> {
                let after = sides_after(sides, alerts, price);
                let alert = alerts[i];
                &&& after.contains_key(alert.id)
                &&& alert.price.lt(price) ==> after[alert.id] == 1
                &&& price.lt(alert.price) ==> after[alert.id] == -1
                &&& !alert.price.lt(price) && !price.lt(alert.price) ==> after[alert.id] == 0
            },
        forall|id: i64|
            (forall|i: int| 0 <= i < alerts.len() ==> (#[trigger] alerts[i]).id != id) ==> {
                &&& #[trigger] sides_after(sides, alerts, price).contains_key(id)
                    <==> sides.contains_key(id)
                &&& sides.contains_key(id) ==> sides_after(sides, alerts, price)[id] == sides[id]
            },
    decreases alerts.len(),
{
    if alerts.len() > 0 {
        let fewer = alerts.drop_last();
        sides_follow_each_line(sides, fewer, price);
        let before = sides_after(sides, fewer, price);
        let after = sides_after(sides, alerts, price);
        let last = alerts.last();
        let line = last.price;
        line.order_is_strict(price);
        assert forall|i: int| #![trigger alerts[i]] 0 <= i < alerts.len() implies {
            let alert = alerts[i];
            &&& after.contains_key(alert.id)
            &&& alert.price.lt(price) ==> after[alert.id] == 1
            &&& price.lt(alert.price) ==> after[alert.id] == -1
            &&& !alert.price.lt(price) && !price.lt(alert.price) ==> after[alert.id] == 0
        } by {
            if i < fewer.len() {
                assert(fewer[i] == alerts[i]);
                assert(alerts[alerts.len() - 1].id != alerts[i].id);
            }
        }
        assert forall|id: i64|
            (forall|i: int| 0 <= i < alerts.len() ==> (#[trigger] alerts[i]).id != id) implies {
            &&& #[trigger] sides_after(sides, alerts, price).contains_key(id)
                <==> sides.contains_key(id)
            &&& sides.contains_key(id) ==> sides_after(sides, alerts, price)[id] == sides[id]
        } by {
            assert forall|i: int| 0 <= i < fewer.len() implies (#[trigger] fewer[i]).id != id by {
                assert(fewer[i] == alerts[i]);
            }
            assert(alerts[alerts.len() - 1].id != id);
            assert(before.contains_key(id) <==> sides.contains_key(id));
        }
    }
}

/// An alert fires, upwards, exactly if its own line was above the price before
/// and is below it now, and it waits for that; downwards the other way round.
/// Nothing else in the list has a say.
pub proof fn alerts_fire_by_their_own_line(
    sides: Map<i64, i8>,
    alerts: Seq<Alert>,
    price: Double,
    i: int,
)
    requires
        ids_differ(alerts),
        0 <= i < alerts.len(),
        sides.contains_key(alerts[i].id) ==> -1 <= sides[alerts[i].id] <= 1,
    ensures
        fired(sides, alerts, price).contains((i, "cross_up"@)) <==> {
            &&& sides.contains_key(alerts[i].id) && sides[alerts[i].id] == -1
            &&& alerts[i].price.lt(price)
            &&& alerts[i].direction@ == "cross_up"@ || alerts[i].direction@ == "cross_any"@
        },
        fired(sides, alerts, price).contains((i, "cross_down"@)) <==> {
            &&& sides.contains_key(alerts[i].id) && sides[alerts[i].id] == 1
            &&& price.lt(alerts[i].price)
            &&& alerts[i].direction@ == "cross_down"@ || alerts[i].direction@ == "cross_any"@
        },
        forall|to: Seq<char>| #[trigger]
            fired(sides, alerts, price).contains((i, to)) ==> to == "cross_up"@ || to
                == "cross_down"@,
    decreases alerts.len(),
{
    reveal_strlit("cross_up");
    reveal_strlit("cross_down");
    reveal_strlit("cross_any");
    assert("cross_up"@.len() == 8 && "cross_down"@.len() == 10 && "cross_any"@.len() == 9);
    let fewer = alerts.drop_last();
    let earlier = fired(sides, fewer, price);
    let all = fired(sides, alerts, price);
    hits_are_in_order(sides, fewer, price);
    alerts[i].price.order_is_strict(price);
    if i < alerts.len() - 1 {
        assert(fewer[i] == alerts[i]);
        alerts_fire_by_their_own_line(sides, fewer, price, i);
        assert forall|to: Seq<char>|
            #![trigger all.contains((i, to))]
            all.contains((i, to)) == earlier.contains((i, to)) by {
            if all.contains((i, to)) {
                let k = choose|k: int| 0 <= k < all.len() && all[k] == (i, to);
                assert(k < earlier.len() && earlier[k] == (i, to));
            }
            if earlier.contains((i, to)) {
                let k = choose|k: int| 0 <= k < earlier.len() && earlier[k] == (i, to);
                assert(all[k] == (i, to));
            }
        }
        assert(all.contains((i, "cross_up"@)) == earlier.contains((i, "cross_up"@)));
        assert(all.contains((i, "cross_down"@)) == earlier.contains((i, "cross_down"@)));
        assert forall|to: Seq<char>| #[trigger] all.contains((i, to)) implies to == "cross_up"@
            || to == "cross_down"@ by {
            assert(earlier.contains((i, to)));
        }
    } else {
        sides_follow_each_line(sides, fewer, price);
        let before = sides_after(sides, fewer, price);
        let id = alerts[i].id;
        assert forall|k: int| 0 <= k < fewer.len() implies (#[trigger] fewer[k]).id != id by {
            assert(fewer[k] == alerts[k]);
        }
        assert(before.contains_key(id) <==> sides.contains_key(id));
        assert forall|to: Seq<char>| !(#[trigger] earlier.contains((i, to))) by {
            if earlier.contains((i, to)) {
                let k = choose|k: int| 0 <= k < earlier.len() && earlier[k] == (i, to);
                assert(earlier[k].0 < fewer.len());
            }
        }
        let previous = last_side(before, id);
        let side = side_of(price, alerts[i].price);
        if crosses(alerts[i].direction@, previous, side) {
            let to = way(previous, side);
            assert(all == earlier.push((i, to)));
            assert(all[all.len() - 1] == (i, to));
            assert(all.contains((i, to)));
            assert forall|other: Seq<char>| #[trigger] all.contains((i, other)) implies other
                == to by {
                let k = choose|k: int| 0 <= k < all.len() && all[k] == (i, other);
                if k < earlier.len() {
                    assert(earlier[k] == (i, other));
                    assert(earlier.contains((i, other)));
                }
            }
        } else {
            assert(all == earlier);
            assert(!earlier.contains((i, "cross_up"@)));
            assert(!earlier.contains((i, "cross_down"@)));
        }
    }
}

/// The alerts that fire are told in the order of the list, each at most once.
pub proof fn hits_are_in_order(sides: Map<i64, i8>, alerts: Seq<Alert>, price: Double)
    ensures
        forall|k: int|
            0 <= k < fired(sides, alerts, price).len() ==> 0 <= (#[trigger] fired(
                sides,
                alerts,
                price,
            )[k]).0 < alerts.len(),
        forall|k: int, m: int|
            0 <= k < m < fired(sides, alerts, price).len() ==> (#[trigger] fired(
                sides,
                alerts,
                price,
            )[k]).0 < (#[trigger] fired(sides, alerts, price)[m]).0,
    decreases alerts.len(),
{
    if alerts.len() > 0 {
        hits_are_in_order(sides, alerts.drop_last(), price);
        let earlier = fired(sides, alerts.drop_last(), price);
        let all = fired(sides, alerts, price);
        assert forall|k: int| 0 <= k < earlier.len() implies #[trigger] all[k] == earlier[k] by {}
        assert(all.len() <= earlier.len() + 1);
        if all.len() == earlier.len() + 1 {
            assert(all[earlier.len() as int].0 == alerts.len() - 1);
        }
        assert forall|k: int| 0 <= k < all.len() implies 0 <= (#[trigger] all[k]).0
            < alerts.len() by {
            if k < earlier.len() {
                assert(all[k] == earlier[k]);
            }
        }
        assert forall|k: int, m: int| 0 <= k < m < all.len() implies (#[trigger] all[k]).0 < (
        #[trigger] all[m]).0 by {
            assert(all[k] == earlier[k]);
            if m < earlier.len() {
                assert(all[m] == earlier[m]);
            }
        }
    }
}

/// Whether an alert fires, and which way, is the same in every list that it
/// stands in.
pub proof fn alerts_do_not_sway_each_other(
    sides: Map<i64, i8>,
    a: Seq<Alert>,
    b: Seq<Alert>,
    price: Double,
    i: int,
    j: int,
    to: Seq<char>,
)
    requires
        ids_differ(a),
        ids_differ(b),
        0 <= i < a.len(),
        0 <= j < b.len(),
        a[i] == b[j],
        sides.contains_key(a[i].id) ==> -1 <= sides[a[i].id] <= 1,
    ensures
        fired(sides, a, price).contains((i, to)) <==> fired(sides, b, price).contains((j, to)),
{
    alerts_fire_by_their_own_line(sides, a, price, i);
    alerts_fire_by_their_own_line(sides, b, price, j);
}

/// A list in two parts is held against a price as the one part and then the
/// other, which sees the sides that the first has left.
pub proof fn lists_are_held_in_turn(
    sides: Map<i64, i8>,
    a: Seq<Alert>,
    b: Seq<Alert>,
    price: Double,
)
    ensures
        sides_after(sides, a + b, price) == sides_after(sides_after(sides, a, price), b, price),
        fired(sides, a + b, price) == fired(sides, a, price) + fired(
            sides_after(sides, a, price),
            b,
            price,
        ).map_values(|hit: (int, Seq<char>)| (hit.0 + a.len(), hit.1)),
    decreases b.len(),
{
    let moved = |hit: (int, Seq<char>)| (hit.0 + a.len(), hit.1);
    let middle = sides_after(sides, a, price);
    if b.len() == 0 {
        assert(a + b =~= a);
        assert(fired(sides, a, price) + fired(middle, b, price).map_values(moved) =~= fired(
            sides,
            a,
            price,
        ));
    } else {
        lists_are_held_in_turn(sides, a, b.drop_last(), price);
        assert((a + b).drop_last() =~= a + b.drop_last());
        assert(fired(sides, a + b, price) =~= fired(sides, a, price) + fired(
            middle,
            b,
            price,
        ).map_values(moved));
    }
}

/// A price that stays fires nothing: what one price has told is not told again.
pub proof fn a_price_fires_once(sides: Map<i64, i8>, alerts: Seq<Alert>, price: Double, i: int)
    requires
        ids_differ(alerts),
        0 <= i < alerts.len(),
    ensures
        forall|to: Seq<char>|
            !(#[trigger] fired(sides_after(sides, alerts, price), alerts, price).contains((i, to))),
{
    let after = sides_after(sides, alerts, price);
    sides_follow_each_line(sides, alerts, price);
    alerts[i].price.order_is_strict(price);
    alerts_fire_by_their_own_line(after, alerts, price, i);
    assert forall|to: Seq<char>| !(#[trigger] fired(after, alerts, price).contains((i, to))) by {
        if fired(after, alerts, price).contains((i, to)) {
            assert(to == "cross_up"@ || to == "cross_down"@);
        }
    }
}

/// A delivery is tried three times, at growing distance: a quarter of a second
/// after the first failure, and each time twice as long.
pub proof fn deliveries_are_tried_three_times(attempt: u32)
    requires
        attempt < 3,
    ensures
        delivery_step(attempt, true) is Delivered,
        delivery_step(attempt, false) is GiveUp <==> attempt == 2,
        attempt < 2 ==> delivery_step(attempt, false) == DeliveryStep::RetryAfter(
            if attempt == 0 {
                250
            } else {
                500
            },
        ),
{
}

// ---------------------------------------------------------------------------
// What a message holds.
// ---------------------------------------------------------------------------

/// The text has no brace that could open a name.
pub open spec fn plain(s: Seq<char>) -> bool {
    !s.contains('{')
}

/// The names that a template can hold.
pub open spec fn template_names() -> Seq<Seq<char>> {
    seq![
        "{{ticker}}"@,
        "{{symbol}}"@,
        "{{exchange}}"@,
        "{{interval}}"@,
        "{{price}}"@,
        "{{close}}"@,
        "{{alertId}}"@,
        "{{time}}"@,
    ]
}

/// A name in two braces.
spec fn braced(name: Seq<char>) -> bool {
    &&& name.len() >= 5
    &&& name[0] == '{' && name[1] == '{'
    &&& forall|i: int| 2 <= i < name.len() ==> #[trigger] name[i] != '{'
}

proof fn names_are_braced(k: int)
    requires
        0 <= k < 8,
    ensures
        braced(template_names()[k]),
        template_names()[k][2] == seq!['t', 's', 'e', 'i', 'p', 'c', 'a', 't'][k],
        k == 0 ==> template_names()[k][4] == 'c',
        k == 7 ==> template_names()[k][4] == 'm',
{
    reveal_strlit("{{ticker}}");
    reveal_strlit("{{symbol}}");
    reveal_strlit("{{exchange}}");
    reveal_strlit("{{interval}}");
    reveal_strlit("{{price}}");
    reveal_strlit("{{close}}");
    reveal_strlit("{{alertId}}");
    reveal_strlit("{{time}}");
}

proof fn names_differ(k: int, m: int) -> (d: int)
    requires
        0 <= k < 8,
        0 <= m < 8,
        k != m,
    ensures
        0 <= d < template_names()[k].len(),
        d < template_names()[m].len(),
        template_names()[k][d] != template_names()[m][d],
{
    names_are_braced(k);
    names_are_braced(m);
    if (k == 0 && m == 7) || (k == 7 && m == 0) {
        4
    } else {
        2
    }
}

proof fn plain_text_stays(s: Seq<char>, name: Seq<char>, value: Seq<char>)
    requires
        plain(s),
        braced(name),
    ensures
        replaced(s, name, value) == s,
{
    assert forall|i: int| 0 <= i < s.len() implies !#[trigger] crate::text::occurs_at(
        s,
        name,
        i,
    ) by {
        if crate::text::occurs_at(s, name, i) {
            assert(s.subrange(i, i + name.len())[0] == name[0]);
            assert(s[i] == '{');
        }
    }
    crate::text::replacing_changes_the_pattern_alone(s, name, value, s.len() as int);
}

proof fn other_names_stay(
    a: Seq<char>,
    name: Seq<char>,
    b: Seq<char>,
    other: Seq<char>,
    value: Seq<char>,
    d: int,
)
    requires
        plain(a),
        plain(b),
        braced(name),
        braced(other),
        0 <= d < name.len(),
        d < other.len(),
        name[d] != other[d],
    ensures
        replaced(a + name + b, other, value) == a + name + b,
{
    let s = a + name + b;
    let n = other.len() as int;
    assert forall|i: int| 0 <= i < s.len() implies !#[trigger] crate::text::occurs_at(
        s,
        other,
        i,
    ) by {
        if crate::text::occurs_at(s, other, i) {
            let part = s.subrange(i, i + n);
            assert(part[0] == s[i] && part[1] == s[i + 1] && part[d] == s[i + d]);
            assert(s[i] == '{' && s[i + 1] == '{');
            if i < a.len() {
                assert(a[i] == '{');
                assert(a.contains('{'));
            } else if i >= a.len() + name.len() {
                assert(b[i - a.len() - name.len()] == '{');
                assert(b.contains('{'));
            } else if i == a.len() {
                assert(s[i + d] == name[d]);
            } else if i + 1 < a.len() + name.len() {
                assert(s[i + 1] == name[i + 1 - a.len()]);
            } else {
                assert(s[i] == name[i - a.len()]);
            }
        }
    }
    crate::text::replacing_changes_the_pattern_alone(s, other, value, s.len() as int);
}

proof fn the_name_gives_way(a: Seq<char>, name: Seq<char>, b: Seq<char>, value: Seq<char>)
    requires
        plain(a),
        plain(b),
        braced(name),
    ensures
        replaced(a + name + b, name, value) == a + value + b,
{
    let s = a + name + b;
    let at = a.len() as int;
    let n = name.len() as int;
    assert forall|i: int| 0 <= i < at implies !#[trigger] crate::text::occurs_at(s, name, i) by {
        if crate::text::occurs_at(s, name, i) {
            assert(s.subrange(i, i + n)[0] == s[i]);
            assert(a[i] == '{');
            assert(a.contains('{'));
        }
    }
    assert(s.subrange(at, at + n) =~= name);
    assert(crate::text::occurs_at(s, name, at));
    crate::text::replacing_changes_the_pattern_alone(s, name, value, at);
    assert(s.skip(at + n) =~= b);
    assert(s.take(at) =~= a);
    plain_text_stays(b, name, value);
}

/// One round of replacing, when the template held name number `held` alone.
proof fn one_round(
    a: Seq<char>,
    b: Seq<char>,
    held: int,
    put: Seq<char>,
    k: int,
    value: Seq<char>,
    before: Seq<char>,
)
    requires
        plain(a),
        plain(b),
        plain(put),
        0 <= held < 8,
        0 <= k < 8,
        k == held ==> value == put,
        before == if k <= held {
            a + template_names()[held] + b
        } else {
            a + put + b
        },
    ensures
        replaced(before, template_names()[k], value) == if k + 1 <= held {
            a + template_names()[held] + b
        } else {
            a + put + b
        },
{
    names_are_braced(held);
    names_are_braced(k);
    if k < held {
        let d = names_differ(held, k);
        other_names_stay(a, template_names()[held], b, template_names()[k], value, d);
    } else if k == held {
        the_name_gives_way(a, template_names()[held], b, put);
    } else {
        let s = a + put + b;
        assert(plain(s)) by {
            if s.contains('{') {
                let i = choose|i: int| 0 <= i < s.len() && s[i] == '{';
                if i < a.len() {
                    assert(a[i] == '{');
                } else if i < a.len() + put.len() {
                    assert(put[i - a.len()] == '{');
                } else {
                    assert(b[i - a.len() - put.len()] == '{');
                }
            }
        }
        plain_text_stays(s, template_names()[k], value);
    }
}

proof fn numbers_are_plain(n: int)
    ensures
        plain(signed_decimal(n)),
{
    let s = signed_decimal(n);
    let size = if n < 0 {
        (-n) as nat
    } else {
        n as nat
    };
    crate::text::decimals_have_no_leading_nought(size);
    let digits = crate::text::decimal(size);
    if s.contains('{') {
        let i = choose|i: int| 0 <= i < s.len() && s[i] == '{';
        if n < 0 {
            if i > 0 {
                assert(digits[i - 1] == '{');
                assert(crate::text::digit(digits[i - 1]));
            }
        } else {
            assert(crate::text::digit(digits[i]));
        }
    }
}

/// A name in the template gives way to what it stands for: the symbol, the
/// exchange, the interval, the price, the alert's id or the time. What is
/// around it stays.
pub proof fn names_stand_for_the_alert(
    a: Seq<char>,
    b: Seq<char>,
    held: int,
    symbol: Seq<char>,
    interval: Seq<char>,
    id: int,
    price: Seq<char>,
    now_ms: int,
)
    requires
        plain(a),
        plain(b),
        plain(symbol),
        plain(interval),
        plain(price),
        0 <= held < 8,
    ensures
        rendered(a + template_names()[held] + b, symbol, interval, id, price, now_ms) == a + seq![
            symbol,
            symbol,
            "BINANCE"@,
            interval,
            price,
            price,
            signed_decimal(id),
            signed_decimal(now_ms),
        ][held] + b,
{
    reveal_strlit("BINANCE");
    assert(plain("BINANCE"@));
    numbers_are_plain(id);
    numbers_are_plain(now_ms);
    let put = seq![
        symbol,
        symbol,
        "BINANCE"@,
        interval,
        price,
        price,
        signed_decimal(id),
        signed_decimal(now_ms),
    ][held];
    let s0 = a + template_names()[held] + b;
    let s1 = replaced(s0, "{{ticker}}"@, symbol);
    one_round(a, b, held, put, 0, symbol, s0);
    let s2 = replaced(s1, "{{symbol}}"@, symbol);
    one_round(a, b, held, put, 1, symbol, s1);
    let s3 = replaced(s2, "{{exchange}}"@, "BINANCE"@);
    one_round(a, b, held, put, 2, "BINANCE"@, s2);
    let s4 = replaced(s3, "{{interval}}"@, interval);
    one_round(a, b, held, put, 3, interval, s3);
    let s5 = replaced(s4, "{{price}}"@, price);
    one_round(a, b, held, put, 4, price, s4);
    let s6 = replaced(s5, "{{close}}"@, price);
    one_round(a, b, held, put, 5, price, s5);
    let s7 = replaced(s6, "{{alertId}}"@, signed_decimal(id));
    one_round(a, b, held, put, 6, signed_decimal(id), s6);
    one_round(a, b, held, put, 7, signed_decimal(now_ms), s7);
}

/// A template without names is sent as it is.
pub proof fn plain_templates_stay(
    template: Seq<char>,
    symbol: Seq<char>,
    interval: Seq<char>,
    id: int,
    price: Seq<char>,
    now_ms: int,
)
    requires
        plain(template),
    ensures
        rendered(template, symbol, interval, id, price, now_ms) == template,
{
    assert forall|k: int| 0 <= k < 8 implies braced(#[trigger] template_names()[k]) by {
        names_are_braced(k);
    }
    plain_text_stays(template, template_names()[0], symbol);
    plain_text_stays(template, template_names()[1], symbol);
    plain_text_stays(template, template_names()[2], "BINANCE"@);
    plain_text_stays(template, template_names()[3], interval);
    plain_text_stays(template, template_names()[4], price);
    plain_text_stays(template, template_names()[5], price);
    plain_text_stays(template, template_names()[6], signed_decimal(id));
    plain_text_stays(template, template_names()[7], signed_decimal(now_ms));
}

} // verus!
