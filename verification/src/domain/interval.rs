//! Candle intervals: their names, their lengths and the buckets of time that
//! they cut.

use crate::text::{
    ascii_letter, chars_of, decimal, decimal_stands_for_its_number, digit,
    is_ascii_letter, is_letter_text, read_u32, same_text, slice_of, string_of, trim, trim_end,
    trim_start, trimmed, u32_of, unsigned_digits, white_space, write_decimal,
};
use chrono::{Datelike, TimeZone};
use vstd::prelude::*;
use vstd::string::*;

verus! {

pub const DAY_MS: i64 = 86_400_000;

pub const WEEK_MS: i64 = 604_800_000;

/// The first and the last millisecond that the calendar can hold.
pub const CALENDAR_START_MS: i64 = -8_334_601_228_800_000;

pub const CALENDAR_END_MS: i64 = 8_210_266_876_799_999;

/// The length of the candles of a series.
#[derive(Debug, Clone, Copy, PartialEq, Eq, Hash, Structural)]
pub enum Interval {
    Seconds(u32),
    Minutes(u32),
    Days(u32),
    Weeks(u32),
}

/// A text that names no supported interval.
#[derive(Debug, Clone, PartialEq, Eq)]
pub struct IntervalParseError {
    pub input: String,
}

impl IntervalParseError {
    /// What to tell whoever wrote the text.
    pub fn message(&self) -> (r: String)
        ensures
            r@ == "invalid interval: "@ + self.input@,
    {
        "invalid interval: ".to_owned().concat(self.input.as_str())
    }
}

// ---------------------------------------------------------------------------
// The calendar.
// ---------------------------------------------------------------------------

/// Whether the calendar holds an instant.
pub open spec fn in_calendar(timestamp_ms: int) -> bool {
    CALENDAR_START_MS <= timestamp_ms <= CALENDAR_END_MS
}

/// Trusted: `chrono`'s `Utc.timestamp_millis_opt(..).single()`, then
/// `date_naive`, `and_hms_opt(0, 0, 0)`, `from_utc_datetime` and
/// `timestamp_millis`. There is a date exactly for the instants from the start
/// of the year -262143 to the end of the year 262142, and its midnight is the
/// last whole day, counted from the epoch, at or before the instant.
#[verifier::external_body]
fn utc_midnight_ms(timestamp_ms: i64) -> (r: Option<i64>)
    ensures
        r is Some <==> in_calendar(timestamp_ms as int),
        r matches Some(midnight) ==> midnight == timestamp_ms as int / DAY_MS as int * DAY_MS,
{
    match chrono::Utc.timestamp_millis_opt(timestamp_ms).single() {
        Some(instant) => {
            let midnight = instant.date_naive().and_hms_opt(0, 0, 0).unwrap();
            Some(chrono::Utc.from_utc_datetime(&midnight).timestamp_millis())
        },
        None => None,
    }
}

/// Trusted: `chrono`'s `Utc.timestamp_millis_opt(..).single()`, then `weekday`
/// and `num_days_from_monday`. There is a weekday exactly where there is a
/// date; the epoch is a Thursday and the weekdays follow each other.
#[verifier::external_body]
fn utc_days_from_monday(timestamp_ms: i64) -> (r: Option<u32>)
    ensures
        r is Some <==> in_calendar(timestamp_ms as int),
        r matches Some(days) ==> days == (timestamp_ms as int / DAY_MS as int + 3) % 7,
{
    match chrono::Utc.timestamp_millis_opt(timestamp_ms).single() {
        Some(instant) => Some(instant.weekday().num_days_from_monday()),
        None => None,
    }
}

/// The Monday midnight at or before an instant. The epoch is a Thursday.
pub open spec fn monday_of(timestamp_ms: int) -> int {
    (timestamp_ms + 3 * DAY_MS) / WEEK_MS as int * WEEK_MS - 3 * DAY_MS
}

/// Stepping back from a midnight to Monday lands on the start of the week.
proof fn midnight_to_monday(t: int)
    ensures
        t / DAY_MS as int * DAY_MS - (t / DAY_MS as int + 3) % 7 * DAY_MS == monday_of(t),
{
    let day = t / 86_400_000;
    let shifted = day + 3;
    assert((t + 3 * 86_400_000) / 604_800_000 == shifted / 7) by {
        assert(t == 86_400_000 * day + t % 86_400_000);
        assert(shifted == 7 * (shifted / 7) + shifted % 7);
    }
    assert(shifted == 7 * (shifted / 7) + shifted % 7);
}

// ---------------------------------------------------------------------------
// Names.
// ---------------------------------------------------------------------------

/// The minute intervals that are served.
pub open spec fn supported_minutes(minutes: u32) -> bool {
    ||| 1 <= minutes <= 5
    ||| minutes == 8
    ||| minutes == 10
    ||| minutes == 15
    ||| minutes == 20
    ||| minutes == 30
    ||| minutes == 45
    ||| minutes == 60
    ||| minutes == 90
    ||| minutes == 120
    ||| minutes == 180
    ||| minutes == 240
    ||| minutes == 360
    ||| minutes == 480
    ||| minutes == 720
}

/// The minute intervals that the exchange itself offers.
pub open spec fn native_minutes(minutes: u32) -> bool {
    ||| minutes == 1
    ||| minutes == 3
    ||| minutes == 5
    ||| minutes == 15
    ||| minutes == 30
    ||| minutes == 60
    ||| minutes == 120
    ||| minutes == 240
    ||| minutes == 360
    ||| minutes == 480
    ||| minutes == 720
}

/// The interval of a number and a unit letter.
pub open spec fn with_unit(value: u32, unit: char) -> Option<Interval> {
    if unit == 's' || unit == 'S' {
        Some(Interval::Seconds(value))
    } else if unit == 'd' || unit == 'D' {
        Some(Interval::Days(value))
    } else if unit == 'w' || unit == 'W' {
        Some(Interval::Weeks(value))
    } else {
        None
    }
}

/// The interval that a text names, supported or not: a number of minutes, a
/// number with a unit letter, or a lone `D` or `W`. White space around it does
/// not count.
pub open spec fn named_interval(s: Seq<char>) -> Option<Interval> {
    let t = trimmed(s);
    if t.len() == 0 {
        None
    } else if t == seq!['D'] || t == seq!['d'] {
        Some(Interval::Days(1))
    } else if t == seq!['W'] || t == seq!['w'] {
        Some(Interval::Weeks(1))
    } else if ascii_letter(t.last()) {
        match u32_of(t.drop_last()) {
            Some(value) => with_unit(value, t.last()),
            None => None,
        }
    } else {
        match u32_of(t) {
            Some(value) => Some(Interval::Minutes(value)),
            None => None,
        }
    }
}

/// The supported interval that a text names.
pub open spec fn parsed_interval(s: Seq<char>) -> Option<Interval> {
    match named_interval(s) {
        Some(interval) => if interval.supported() {
            Some(interval)
        } else {
            None
        },
        None => None,
    }
}

impl Interval {
    pub open spec fn supported(self) -> bool {
        match self {
            Interval::Seconds(v) => v == 10 || v == 15 || v == 30 || v == 45,
            Interval::Minutes(v) => supported_minutes(v),
            Interval::Days(v) => 1 <= v <= 4 || v == 10,
            Interval::Weeks(v) => v == 1,
        }
    }

    /// The length in milliseconds.
    pub open spec fn millis(self) -> int {
        match self {
            Interval::Seconds(v) => v * 1_000,
            Interval::Minutes(v) => v * 60_000,
            Interval::Days(v) => v * 86_400_000,
            Interval::Weeks(v) => v * 604_800_000,
        }
    }

    /// The canonical name.
    pub open spec fn name(self) -> Seq<char> {
        match self {
            Interval::Seconds(v) => decimal(v as nat) + seq!['S'],
            Interval::Minutes(v) => decimal(v as nat),
            Interval::Days(v) => if v == 1 {
                seq!['D']
            } else {
                decimal(v as nat) + seq!['D']
            },
            Interval::Weeks(v) => if v == 1 {
                seq!['W']
            } else {
                decimal(v as nat) + seq!['W']
            },
        }
    }

    /// The exchange's own name of the interval, where it has one.
    pub open spec fn native_name(self) -> Option<Seq<char>> {
        match self {
            Interval::Minutes(v) => if v == 1 {
                Some("1m"@)
            } else if v == 3 {
                Some("3m"@)
            } else if v == 5 {
                Some("5m"@)
            } else if v == 15 {
                Some("15m"@)
            } else if v == 30 {
                Some("30m"@)
            } else if v == 60 {
                Some("1h"@)
            } else if v == 120 {
                Some("2h"@)
            } else if v == 240 {
                Some("4h"@)
            } else if v == 360 {
                Some("6h"@)
            } else if v == 480 {
                Some("8h"@)
            } else if v == 720 {
                Some("12h"@)
            } else {
                None
            },
            Interval::Days(v) => if v == 1 {
                Some("1d"@)
            } else if v == 3 {
                Some("3d"@)
            } else {
                None
            },
            Interval::Weeks(v) => if v == 1 {
                Some("1w"@)
            } else {
                None
            },
            Interval::Seconds(_) => None,
        }
    }

    /// `base` is the largest of the exchange's minute intervals that is
    /// shorter than `minutes` and divides it.
    pub open spec fn is_minute_base(minutes: u32, base: u32) -> bool {
        &&& native_minutes(base) && base < minutes && minutes % base == 0
        &&& forall|b: u32| #[trigger]
            native_minutes(b) && b < minutes && minutes % b == 0 ==> b <= base
    }

    /// The native interval that a custom one is built from.
    pub open spec fn base(self) -> Option<Interval> {
        if self.native_name() is Some {
            None
        } else {
            match self {
                Interval::Minutes(v) => if v == 0 {
                    None
                } else {
                    Some(Interval::Minutes(choose|base: u32| Interval::is_minute_base(v, base)))
                },
                Interval::Days(_) => Some(Interval::Days(1)),
                _ => None,
            }
        }
    }

    /// The start of the bucket that an instant falls into. Weeks start on
    /// Monday; an instant outside the calendar counts as the epoch there.
    pub open spec fn bucket(self, timestamp_ms: int) -> int {
        match self {
            Interval::Weeks(_) => if in_calendar(timestamp_ms) {
                monday_of(timestamp_ms)
            } else {
                monday_of(0)
            },
            _ => timestamp_ms / self.millis() * self.millis(),
        }
    }

    /// The instant's bucket can be computed: the interval has a length and
    /// the start of the bucket is a 64-bit number.
    pub open spec fn has_bucket(self, timestamp_ms: int) -> bool {
        self is Weeks || (self.millis() > 0 && i64::MIN <= self.bucket(timestamp_ms))
    }

    /// The start of the bucket where one bucket starts at `anchor_ms`.
    pub open spec fn anchored_bucket(self, timestamp_ms: int, anchor_ms: int) -> int {
        anchor_ms + (timestamp_ms - anchor_ms) / self.millis() * self.millis()
    }

    /// The instant's anchored bucket can be computed in 64-bit numbers.
    pub open spec fn has_anchored_bucket(self, timestamp_ms: int, anchor_ms: int) -> bool {
        &&& self.millis() > 0
        &&& i64::MIN <= timestamp_ms - anchor_ms <= i64::MAX
        &&& i64::MIN <= (timestamp_ms - anchor_ms) / self.millis() * self.millis()
        &&& i64::MIN <= self.anchored_bucket(timestamp_ms, anchor_ms)
    }

    fn is_supported(self) -> (r: bool)
        ensures
            r == self.supported(),
    {
        match self {
            Interval::Seconds(v) => v == 10 || v == 15 || v == 30 || v == 45,
            Interval::Minutes(v) => (1 <= v && v <= 5) || v == 8 || v == 10 || v == 15 || v == 20
                || v == 30 || v == 45 || v == 60 || v == 90 || v == 120 || v == 180 || v == 240
                || v == 360 || v == 480 || v == 720,
            Interval::Days(v) => (1 <= v && v <= 4) || v == 10,
            Interval::Weeks(v) => v == 1,
        }
    }

    /// Reads an interval from its name.
    pub fn parse(input: &str) -> (r: Result<Self, IntervalParseError>)
        ensures
            match r {
                Ok(interval) => parsed_interval(input@) == Some(interval),
                Err(error) => parsed_interval(input@) is None && error.input@ == input@,
            },
    {
        let t = trim(&chars_of(input));
        let named = Self::named(&t);
        match named {
            Some(interval) => {
                if interval.is_supported() {
                    Ok(interval)
                } else {
                    Err(IntervalParseError { input: input.to_owned() })
                }
            },
            None => Err(IntervalParseError { input: input.to_owned() }),
        }
    }

    fn named(t: &Vec<char>) -> (r: Option<Interval>)
        ensures
            forall|s: Seq<char>| #[trigger] trimmed(s) == t@ ==> r == named_interval(s),
    {
        if t.len() == 0 {
            return None;
        }
        if is_letter_text(t, 'D', 'd') {
            return Some(Interval::Days(1));
        }
        if is_letter_text(t, 'W', 'w') {
            return Some(Interval::Weeks(1));
        }
        let last = t[t.len() - 1];
        if is_ascii_letter(last) {
            let number = slice_of(t, 0, t.len() - 1);
            assert(number@ =~= t@.drop_last());
            match read_u32(&number) {
                Some(value) => {
                    if last == 's' || last == 'S' {
                        Some(Interval::Seconds(value))
                    } else if last == 'd' || last == 'D' {
                        Some(Interval::Days(value))
                    } else if last == 'w' || last == 'W' {
                        Some(Interval::Weeks(value))
                    } else {
                        None
                    }
                },
                None => None,
            }
        } else {
            match read_u32(t) {
                Some(value) => Some(Interval::Minutes(value)),
                None => None,
            }
        }
    }

    pub fn as_millis(&self) -> (r: u64)
        ensures
            r == self.millis(),
            r <= i64::MAX,
    {
        match *self {
            Interval::Seconds(v) => v as u64 * 1_000,
            Interval::Minutes(v) => v as u64 * 60_000,
            Interval::Days(v) => v as u64 * 86_400_000,
            Interval::Weeks(v) => v as u64 * 604_800_000,
        }
    }

    pub fn bucket_start_ms(&self, timestamp_ms: i64) -> (r: i64)
        requires
            self.has_bucket(timestamp_ms as int),
        ensures
            r == self.bucket(timestamp_ms as int),
    {
        match *self {
            Interval::Weeks(_) => {
                let instant: i64 = if utc_midnight_ms(timestamp_ms).is_some() {
                    timestamp_ms
                } else {
                    0
                };
                proof {
                    midnight_to_monday(instant as int);
                }
                let midnight: i64 = utc_midnight_ms(instant).unwrap();
                let days: i64 = utc_days_from_monday(instant).unwrap() as i64;
                midnight - days * 86_400_000
            },
            _ => {
                let interval_ms: i64 = self.as_millis() as i64;
                floor_to(timestamp_ms, interval_ms)
            },
        }
    }

    pub fn bucket_start_ms_with_anchor(&self, timestamp_ms: i64, anchor_ms: i64) -> (r: i64)
        requires
            self.has_anchored_bucket(timestamp_ms as int, anchor_ms as int),
        ensures
            r == self.anchored_bucket(timestamp_ms as int, anchor_ms as int),
    {
        let interval_ms: i64 = self.as_millis() as i64;
        proof {
            floor_is_at_most(timestamp_ms - anchor_ms, interval_ms as int);
        }
        anchor_ms + floor_to(timestamp_ms - anchor_ms, interval_ms)
    }

    /// Whether the bucket of an instant can be computed.
    pub fn can_bucket(&self, timestamp_ms: i64) -> (r: bool)
        ensures
            r == self.has_bucket(timestamp_ms as int),
    {
        match *self {
            Interval::Weeks(_) => true,
            _ => {
                let interval_ms: i64 = self.as_millis() as i64;
                interval_ms > 0 && floor_fits(timestamp_ms, interval_ms)
            },
        }
    }

    /// Whether the anchored bucket of an instant can be computed.
    pub fn can_bucket_with_anchor(&self, timestamp_ms: i64, anchor_ms: i64) -> (r: bool)
        ensures
            r == self.has_anchored_bucket(timestamp_ms as int, anchor_ms as int),
    {
        let interval_ms: i64 = self.as_millis() as i64;
        if interval_ms == 0 {
            return false;
        }
        match timestamp_ms.checked_sub(anchor_ms) {
            Some(distance) => {
                if !floor_fits(distance, interval_ms) {
                    return false;
                }
                let floor: i64 = floor_to(distance, interval_ms);
                proof {
                    floor_is_at_most(distance as int, interval_ms as int);
                }
                anchor_ms.checked_add(floor).is_some()
            },
            None => false,
        }
    }

    /// Whether the exchange aligns the interval differently per symbol.
    pub fn uses_symbol_specific_binance_alignment(&self) -> (r: bool)
        ensures
            r == (self matches Interval::Days(days) && days > 1 && self.native_name() is Some),
    {
        let many_days = match *self {
            Interval::Days(days) => days > 1,
            _ => false,
        };
        many_days && self.binance_interval().is_some()
    }

    /// The phase that most of the open times share, the largest of several.
    pub fn infer_bucket_anchor_ms(&self, open_times: &[i64]) -> (r: Option<i64>)
        requires
            open_times@.len() > 0 ==> self.millis() > 0,
        ensures
            match r {
                Some(phase) => leading_phase(open_times@, self.millis(), phase as int),
                None => open_times@.len() == 0,
            },
    {
        if open_times.len() == 0 {
            return None;
        }
        let interval_ms: i64 = self.as_millis() as i64;
        let mut best: i64 = phase_of(open_times[0], interval_ms);
        let mut best_count: usize = count_phase(open_times, interval_ms, best);
        let mut i: usize = 1;
        while i < open_times.len()
            invariant
                1 <= i <= open_times@.len(),
                interval_ms == self.millis(),
                interval_ms > 0,
                best_count == phase_count(open_times@, interval_ms as int, best as int),
                exists|j: int|
                    0 <= j < i && #[trigger] open_times@[j] as int % interval_ms as int == best,
                forall|j: int|
                    0 <= j < i ==> {
                        let phase = #[trigger] open_times@[j] as int % interval_ms as int;
                        let count = phase_count(open_times@, interval_ms as int, phase);
                        count < best_count || (count == best_count && phase <= best)
                    },
            decreases open_times@.len() - i,
        {
            let phase: i64 = phase_of(open_times[i], interval_ms);
            let count: usize = count_phase(open_times, interval_ms, phase);
            if count > best_count || (count == best_count && phase > best) {
                best = phase;
                best_count = count;
            }
            i += 1;
        }
        Some(best)
    }

    /// The canonical name.
    pub fn canonical(&self) -> (r: String)
        ensures
            r@ == self.name(),
    {
        match *self {
            Interval::Seconds(v) => number_with_unit(v, 'S'),
            Interval::Minutes(v) => string_of(&write_decimal(v as u64)),
            Interval::Days(v) => {
                if v == 1 {
                    lone_unit('D')
                } else {
                    number_with_unit(v, 'D')
                }
            },
            Interval::Weeks(v) => {
                if v == 1 {
                    lone_unit('W')
                } else {
                    number_with_unit(v, 'W')
                }
            },
        }
    }

    /// The exchange's own name of the interval.
    pub fn binance_interval(&self) -> (r: Option<&'static str>)
        ensures
            match r {
                Some(name) => self.native_name() == Some(name@),
                None => self.native_name() is None,
            },
    {
        match *self {
            Interval::Minutes(v) => {
                if v == 1 {
                    Some("1m")
                } else if v == 3 {
                    Some("3m")
                } else if v == 5 {
                    Some("5m")
                } else if v == 15 {
                    Some("15m")
                } else if v == 30 {
                    Some("30m")
                } else if v == 60 {
                    Some("1h")
                } else if v == 120 {
                    Some("2h")
                } else if v == 240 {
                    Some("4h")
                } else if v == 360 {
                    Some("6h")
                } else if v == 480 {
                    Some("8h")
                } else if v == 720 {
                    Some("12h")
                } else {
                    None
                }
            },
            Interval::Days(v) => {
                if v == 1 {
                    Some("1d")
                } else if v == 3 {
                    Some("3d")
                } else {
                    None
                }
            },
            Interval::Weeks(v) => {
                if v == 1 {
                    Some("1w")
                } else {
                    None
                }
            },
            Interval::Seconds(_) => None,
        }
    }

    /// The interval that the exchange calls by the given name.
    pub fn from_binance_interval(input: &str) -> (r: Option<Self>)
        ensures
            match r {
                Some(interval) => interval.native_name() == Some(input@),
                None => forall|interval: Interval|
                    (#[trigger] interval.native_name()) != Some(input@),
            },
    {
        if same_text(input, "1m") {
            Some(Interval::Minutes(1))
        } else if same_text(input, "3m") {
            Some(Interval::Minutes(3))
        } else if same_text(input, "5m") {
            Some(Interval::Minutes(5))
        } else if same_text(input, "15m") {
            Some(Interval::Minutes(15))
        } else if same_text(input, "30m") {
            Some(Interval::Minutes(30))
        } else if same_text(input, "1h") {
            Some(Interval::Minutes(60))
        } else if same_text(input, "2h") {
            Some(Interval::Minutes(120))
        } else if same_text(input, "4h") {
            Some(Interval::Minutes(240))
        } else if same_text(input, "6h") {
            Some(Interval::Minutes(360))
        } else if same_text(input, "8h") {
            Some(Interval::Minutes(480))
        } else if same_text(input, "12h") {
            Some(Interval::Minutes(720))
        } else if same_text(input, "1d") {
            Some(Interval::Days(1))
        } else if same_text(input, "3d") {
            Some(Interval::Days(3))
        } else if same_text(input, "1w") {
            Some(Interval::Weeks(1))
        } else {
            None
        }
    }

    /// The native interval that a custom one is built from.
    pub fn aggregation_base(&self) -> (r: Option<Self>)
        ensures
            r == self.base(),
    {
        if self.binance_interval().is_some() {
            return None;
        }
        match *self {
            Interval::Minutes(v) => {
                if v == 0 {
                    return None;
                }
                let base: u32 = minute_base(v);
                proof {
                    let picked = choose|b: u32| Interval::is_minute_base(v, b);
                    assert(Interval::is_minute_base(v, base));
                    assert(Interval::is_minute_base(v, picked));
                    assert(native_minutes(base) && native_minutes(picked));
                }
                Some(Interval::Minutes(base))
            },
            Interval::Days(_) => Some(Interval::Days(1)),
            _ => None,
        }
    }
}

fn divides(base: u32, minutes: u32) -> (r: bool)
    requires
        base > 0,
    ensures
        r == (base < minutes && minutes % base == 0),
{
    base < minutes && minutes % base == 0
}

fn minute_base(minutes: u32) -> (r: u32)
    requires
        minutes > 1,
    ensures
        Interval::is_minute_base(minutes, r),
{
    if divides(720, minutes) {
        720
    } else if divides(480, minutes) {
        480
    } else if divides(360, minutes) {
        360
    } else if divides(240, minutes) {
        240
    } else if divides(120, minutes) {
        120
    } else if divides(60, minutes) {
        60
    } else if divides(30, minutes) {
        30
    } else if divides(15, minutes) {
        15
    } else if divides(5, minutes) {
        5
    } else if divides(3, minutes) {
        3
    } else {
        1
    }
}

fn lone_unit(unit: char) -> (r: String)
    ensures
        r@ == seq![unit],
{
    let mut out: Vec<char> = Vec::new();
    out.push(unit);
    assert(out@ =~= seq![unit]);
    string_of(&out)
}

fn number_with_unit(value: u32, unit: char) -> (r: String)
    ensures
        r@ == decimal(value as nat) + seq![unit],
{
    let mut out = write_decimal(value as u64);
    out.push(unit);
    assert(out@ =~= decimal(value as nat) + seq![unit]);
    string_of(&out)
}

// ---------------------------------------------------------------------------
// Arithmetic of buckets.
// ---------------------------------------------------------------------------

proof fn floor_is_at_most(t: int, step: int)
    requires
        step > 0,
    ensures
        t / step * step <= t < t / step * step + step,
{
    vstd::arithmetic::div_mod::lemma_fundamental_div_mod(t, step);
    vstd::arithmetic::mul::lemma_mul_is_commutative(step, t / step);
    vstd::arithmetic::div_mod::lemma_mod_bound(t, step);
}

proof fn multiple_divides(quotient: int, step: int)
    requires
        step > 0,
    ensures
        quotient * step / step == quotient,
{
    vstd::arithmetic::div_mod::lemma_div_multiples_vanish(quotient, step);
    vstd::arithmetic::mul::lemma_mul_is_commutative(quotient, step);
}

/// The largest multiple of `step` at or below `t`.
pub(crate) fn floor_to(t: i64, step: i64) -> (r: i64)
    requires
        step > 0,
        i64::MIN <= t as int / step as int * step as int,
    ensures
        r == t as int / step as int * step as int,
{
    proof {
        floor_is_at_most(t as int, step as int);
    }
    let quotient: i64 = floor_div(t, step);
    quotient * step
}

/// Whether the largest multiple of `step` at or below `t` is a 64-bit number.
fn floor_fits(t: i64, step: i64) -> (r: bool)
    requires
        step > 0,
    ensures
        r == (i64::MIN <= t as int / step as int * step as int),
{
    proof {
        vstd::arithmetic::div_mod::lemma_fundamental_div_mod(t as int, step as int);
        vstd::arithmetic::mul::lemma_mul_is_commutative(step as int, t as int / step as int);
        vstd::arithmetic::div_mod::lemma_mod_bound(t as int, step as int);
    }
    let rest: i64 = phase_of(t, step);
    t.checked_sub(rest).is_some()
}

/// The quotient rounded down.
pub(crate) fn floor_div(t: i64, step: i64) -> (r: i64)
    requires
        step > 0,
    ensures
        r == t as int / step as int,
{
    proof {
        quotient_fits(t as int, step as int);
    }
    t.checked_div_euclid(step).unwrap()
}

proof fn quotient_fits(t: int, step: int)
    by (nonlinear_arith)
    requires
        step > 0,
        i64::MIN <= t <= i64::MAX,
    ensures
        i64::MIN <= t / step <= i64::MAX,
{
}

fn phase_of(t: i64, step: i64) -> (r: i64)
    requires
        step > 0,
    ensures
        r == t as int % step as int,
{
    proof {
        vstd::arithmetic::div_mod::lemma_mod_bound(t as int, step as int);
    }
    t.checked_rem_euclid(step).unwrap()
}

/// How many of the times leave the given remainder.
pub open spec fn phase_count(times: Seq<i64>, step: int, phase: int) -> nat {
    times.filter(|t: i64| t as int % step == phase).len()
}

/// `phase` is the most frequent remainder, and the largest of those that tie.
pub open spec fn leading_phase(times: Seq<i64>, step: int, phase: int) -> bool {
    &&& exists|i: int| 0 <= i < times.len() && #[trigger] times[i] as int % step == phase
    &&& forall|i: int|
        0 <= i < times.len() ==> {
            let other = #[trigger] times[i] as int % step;
            let count = phase_count(times, step, other);
            let leading = phase_count(times, step, phase);
            count < leading || (count == leading && other <= phase)
        }
}

fn count_phase(times: &[i64], step: i64, phase: i64) -> (r: usize)
    requires
        step > 0,
    ensures
        r == phase_count(times@, step as int, phase as int),
{
    let ghost pick = |t: i64| t as int % step as int == phase as int;
    let mut count: usize = 0;
    let mut i: usize = 0;
    assert(times@.take(0).filter(pick) =~= Seq::<i64>::empty()) by {
        reveal(Seq::filter);
    }
    while i < times.len()
        invariant
            i <= times@.len(),
            step > 0,
            count <= i,
            pick == (|t: i64| t as int % step as int == phase as int),
            count == times@.take(i as int).filter(pick).len(),
        decreases times@.len() - i,
    {
        assert(times@.take(i + 1).drop_last() =~= times@.take(i as int));
        proof {
            reveal(Seq::filter);
        }
        if phase_of(times[i], step) == phase {
            count += 1;
        }
        i += 1;
    }
    assert(times@.take(times@.len() as int) =~= times@);
    count
}

// ---------------------------------------------------------------------------
// Laws.
// ---------------------------------------------------------------------------

/// A bucket holds the instants that fall into it: the instant lies at or after
/// the start and before the start of the next one.
pub proof fn bucket_holds_its_instants(interval: Interval, timestamp_ms: int)
    requires
        interval.millis() > 0,
        interval is Weeks ==> in_calendar(timestamp_ms),
    ensures
        interval.bucket(timestamp_ms) <= timestamp_ms,
        timestamp_ms < interval.bucket(timestamp_ms) + interval.millis(),
{
    if !(interval is Weeks) {
        floor_is_at_most(timestamp_ms, interval.millis());
    }
}

/// Where a bucket can be computed its start is a 64-bit number.
pub proof fn bucket_fits(interval: Interval, timestamp_ms: int)
    requires
        i64::MIN <= timestamp_ms <= i64::MAX,
        interval.has_bucket(timestamp_ms),
    ensures
        i64::MIN <= interval.bucket(timestamp_ms) <= i64::MAX,
{
    if !(interval is Weeks) {
        floor_is_at_most(timestamp_ms, interval.millis());
    }
}

/// The start of a bucket falls into that bucket.
pub proof fn bucket_starts_in_itself(interval: Interval, timestamp_ms: int)
    requires
        interval.millis() > 0,
        interval is Weeks ==> in_calendar(timestamp_ms) && in_calendar(interval.bucket(timestamp_ms)),
    ensures
        interval.bucket(interval.bucket(timestamp_ms)) == interval.bucket(timestamp_ms),
{
    if !(interval is Weeks) {
        multiple_divides(timestamp_ms / interval.millis(), interval.millis());
    }
}

/// A later instant never falls into an earlier bucket.
pub proof fn buckets_follow_time(interval: Interval, first_ms: int, second_ms: int)
    requires
        interval.millis() > 0,
        first_ms <= second_ms,
        interval is Weeks ==> in_calendar(first_ms) && in_calendar(second_ms),
    ensures
        interval.bucket(first_ms) <= interval.bucket(second_ms),
{
    if !(interval is Weeks) {
        vstd::arithmetic::div_mod::lemma_div_is_ordered(first_ms, second_ms, interval.millis());
        vstd::arithmetic::mul::lemma_mul_inequality(
            first_ms / interval.millis(),
            second_ms / interval.millis(),
            interval.millis(),
        );
    }
}

/// An anchored bucket holds its instants, lies whole intervals away from the
/// anchor, and starts in itself.
pub proof fn anchored_buckets_keep_the_phase(interval: Interval, timestamp_ms: int, anchor_ms: int)
    requires
        interval.millis() > 0,
    ensures
        ({
            let start = interval.anchored_bucket(timestamp_ms, anchor_ms);
            &&& start <= timestamp_ms < start + interval.millis()
            &&& (start - anchor_ms) % interval.millis() == 0
            &&& interval.anchored_bucket(start, anchor_ms) == start
        }),
{
    let step = interval.millis();
    let quotient = (timestamp_ms - anchor_ms) / step;
    floor_is_at_most(timestamp_ms - anchor_ms, step);
    multiple_divides(quotient, step);
    vstd::arithmetic::div_mod::lemma_mod_multiples_basic(quotient, step);
}

/// Without an anchor an interval of seconds, minutes or days is anchored at
/// the epoch.
pub proof fn epoch_is_the_default_anchor(interval: Interval, timestamp_ms: int)
    requires
        !(interval is Weeks),
    ensures
        interval.anchored_bucket(timestamp_ms, 0) == interval.bucket(timestamp_ms),
{
}

/// No two intervals share an exchange name.
pub proof fn native_names_are_distinct(first: Interval, second: Interval)
    requires
        first.native_name() is Some,
        first.native_name() == second.native_name(),
    ensures
        first == second,
{
    reveal_strlit("1m");
    reveal_strlit("3m");
    reveal_strlit("5m");
    reveal_strlit("15m");
    reveal_strlit("30m");
    reveal_strlit("1h");
    reveal_strlit("2h");
    reveal_strlit("4h");
    reveal_strlit("6h");
    reveal_strlit("8h");
    reveal_strlit("12h");
    reveal_strlit("1d");
    reveal_strlit("3d");
    reveal_strlit("1w");
    assert("1m"@.len() == 2 && "1m"@[0] == '1' && "1m"@[1] == 'm');
    assert("3m"@.len() == 2 && "3m"@[0] == '3' && "3m"@[1] == 'm');
    assert("5m"@.len() == 2 && "5m"@[0] == '5' && "5m"@[1] == 'm');
    assert("15m"@.len() == 3 && "15m"@[0] == '1' && "15m"@[1] == '5' && "15m"@[2] == 'm');
    assert("30m"@.len() == 3 && "30m"@[0] == '3' && "30m"@[1] == '0' && "30m"@[2] == 'm');
    assert("1h"@.len() == 2 && "1h"@[0] == '1' && "1h"@[1] == 'h');
    assert("2h"@.len() == 2 && "2h"@[0] == '2' && "2h"@[1] == 'h');
    assert("4h"@.len() == 2 && "4h"@[0] == '4' && "4h"@[1] == 'h');
    assert("6h"@.len() == 2 && "6h"@[0] == '6' && "6h"@[1] == 'h');
    assert("8h"@.len() == 2 && "8h"@[0] == '8' && "8h"@[1] == 'h');
    assert("12h"@.len() == 3 && "12h"@[0] == '1' && "12h"@[1] == '2' && "12h"@[2] == 'h');
    assert("1d"@.len() == 2 && "1d"@[0] == '1' && "1d"@[1] == 'd');
    assert("3d"@.len() == 2 && "3d"@[0] == '3' && "3d"@[1] == 'd');
    assert("1w"@.len() == 2 && "1w"@[0] == '1' && "1w"@[1] == 'w');
}

/// Every supported interval of minutes or days that the exchange lacks is
/// built from a shorter one that the exchange has and that divides it.
pub proof fn custom_intervals_have_a_native_base(interval: Interval)
    requires
        interval.supported(),
        interval.native_name() is None,
        interval is Minutes || interval is Days,
    ensures
        interval.base() matches Some(base) && {
            &&& base.native_name() is Some
            &&& 0 < base.millis() < interval.millis()
            &&& interval.millis() % base.millis() == 0
        },
{
    if let Interval::Minutes(minutes) = interval {
        let witness: u32 = if minutes == 180 {
            60
        } else if minutes == 90 {
            30
        } else if minutes == 45 {
            15
        } else if minutes == 20 || minutes == 10 {
            5
        } else {
            1
        };
        assert(Interval::is_minute_base(minutes, witness));
        let picked = choose|b: u32| Interval::is_minute_base(minutes, b);
        assert(Interval::is_minute_base(minutes, picked));
        assert(native_minutes(picked) && native_minutes(witness));
        assert(picked == witness);
        whole_multiple(minutes as int, witness as int, 60_000);
    } else if let Interval::Days(days) = interval {
        vstd::arithmetic::div_mod::lemma_mod_multiples_basic(days as int, 86_400_000);
    }
}

proof fn whole_multiple(a: int, b: int, unit: int)
    requires
        b > 0,
        unit > 0,
        a % b == 0,
    ensures
        (a * unit) % (b * unit) == 0,
{
    let q = a / b;
    vstd::arithmetic::div_mod::lemma_fundamental_div_mod(a, b);
    assert(a * unit == q * (b * unit) && b * unit > 0) by (nonlinear_arith)
        requires
            a == b * q,
            b > 0,
            unit > 0,
    ;
    vstd::arithmetic::div_mod::lemma_mod_multiples_basic(q, b * unit);
}

proof fn untrimmed(s: Seq<char>)
    requires
        s.len() > 0,
        !white_space(s[0]),
        !white_space(s.last()),
    ensures
        trimmed(s) == s,
{
    assert(trim_start(s) == s);
    assert(trim_end(s) == s);
}

proof fn number_is_read_back(n: u32)
    requires
        n > 0,
    ensures
        u32_of(decimal(n as nat)) == Some(n),
        digit(decimal(n as nat)[0]),
        digit(decimal(n as nat).last()),
        decimal(n as nat).len() > 0,
{
    decimal_stands_for_its_number(n as nat);
    let s = decimal(n as nat);
    assert(unsigned_digits(s) == s);
}

/// Reading the canonical name of a supported interval gives the interval back.
pub proof fn canonical_names_are_read_back(interval: Interval)
    requires
        interval.supported(),
    ensures
        parsed_interval(interval.name()) == Some(interval),
{
    let name = interval.name();
    match interval {
        Interval::Minutes(v) => {
            number_is_read_back(v);
            untrimmed(name);
        },
        Interval::Seconds(v) => {
            number_is_read_back(v);
            untrimmed(name);
            assert(name.drop_last() =~= decimal(v as nat));
            assert(name.len() > 1);
        },
        Interval::Days(v) => {
            if v != 1 {
                number_is_read_back(v);
                assert(name.drop_last() =~= decimal(v as nat));
                assert(name.len() > 1);
            }
            untrimmed(name);
        },
        Interval::Weeks(_) => {
            untrimmed(name);
        },
    }
}

/// No two supported intervals share a canonical name.
pub proof fn canonical_names_are_distinct(first: Interval, second: Interval)
    requires
        first.supported(),
        second.supported(),
        first.name() == second.name(),
    ensures
        first == second,
{
    canonical_names_are_read_back(first);
    canonical_names_are_read_back(second);
}

/// A bucket starts a whole number of lengths from the epoch, and a week on a
/// Monday, four days after it or before it by whole weeks.
pub proof fn buckets_start_on_the_grid(interval: Interval, timestamp_ms: int)
    requires
        interval.millis() > 0,
    ensures
        !(interval is Weeks) ==> interval.bucket(timestamp_ms) % interval.millis() == 0,
        interval is Weeks ==> (interval.bucket(timestamp_ms) - 345_600_000) % 604_800_000 == 0,
        interval is Weeks && in_calendar(timestamp_ms) ==> interval.bucket(timestamp_ms)
            <= timestamp_ms < interval.bucket(timestamp_ms) + 604_800_000,
{
    if !(interval is Weeks) {
        vstd::arithmetic::div_mod::lemma_mod_multiples_basic(
            timestamp_ms / interval.millis(),
            interval.millis(),
        );
    }
}

/// A second is a thousand milliseconds, a minute is sixty seconds, a day is
/// twenty-four times sixty minutes, and a week is seven days; an interval is as
/// many of its unit as it says.
pub proof fn lengths_follow_the_units(value: u32)
    ensures
        Interval::Seconds(value).millis() == 1_000 * value,
        Interval::Minutes(value).millis() == 60 * Interval::Seconds(value).millis(),
        Interval::Days(value).millis() == 1_440 * Interval::Minutes(value).millis(),
        Interval::Weeks(value).millis() == 7 * Interval::Days(value).millis(),
{
}

/// The intervals that are served are these and no others.
pub proof fn supported_intervals_are_these(value: u32)
    ensures
        Interval::Seconds(value).supported() <==> seq![10u32, 15, 30, 45].contains(value),
        Interval::Minutes(value).supported() <==> seq![
            1u32, 2, 3, 4, 5, 8, 10, 15, 20, 30, 45, 60, 90, 120, 180, 240, 360, 480, 720,
        ].contains(value),
        Interval::Days(value).supported() <==> seq![1u32, 2, 3, 4, 10].contains(value),
        Interval::Weeks(value).supported() <==> value == 1,
{
    let seconds = seq![10u32, 15, 30, 45];
    let minutes = seq![
        1u32, 2, 3, 4, 5, 8, 10, 15, 20, 30, 45, 60, 90, 120, 180, 240, 360, 480, 720,
    ];
    let days = seq![1u32, 2, 3, 4, 10];
    assert(seconds[0] == 10 && seconds[1] == 15 && seconds[2] == 30 && seconds[3] == 45);
    assert(minutes[0] == 1 && minutes[1] == 2 && minutes[2] == 3 && minutes[3] == 4 && minutes[4]
        == 5 && minutes[5] == 8 && minutes[6] == 10 && minutes[7] == 15 && minutes[8] == 20
        && minutes[9] == 30 && minutes[10] == 45 && minutes[11] == 60 && minutes[12] == 90
        && minutes[13] == 120 && minutes[14] == 180 && minutes[15] == 240 && minutes[16] == 360
        && minutes[17] == 480 && minutes[18] == 720);
    assert(days[0] == 1 && days[1] == 2 && days[2] == 3 && days[3] == 4 && days[4] == 10);
}

/// The exchange's name of an interval tells its length: a number and a unit.
pub proof fn native_names_tell_the_length(interval: Interval)
    requires
        interval.native_name() is Some,
    ensures
        ({
            let name = interval.native_name()->0;
            let unit = name.last();
            let n = crate::text::digits_value(name.drop_last()) as int;
            &&& name.len() >= 2
            &&& crate::text::all_digits(name.drop_last())
            &&& unit == 'm' ==> interval.millis() == n * 60_000
            &&& unit == 'h' ==> interval.millis() == n * 3_600_000
            &&& unit == 'd' ==> interval.millis() == n * 86_400_000
            &&& unit == 'w' ==> interval.millis() == n * 604_800_000
            &&& unit == 'm' || unit == 'h' || unit == 'd' || unit == 'w'
        }),
{
    reveal_strlit("1m");
    reveal_strlit("3m");
    reveal_strlit("5m");
    reveal_strlit("15m");
    reveal_strlit("30m");
    reveal_strlit("1h");
    reveal_strlit("2h");
    reveal_strlit("4h");
    reveal_strlit("6h");
    reveal_strlit("8h");
    reveal_strlit("12h");
    reveal_strlit("1d");
    reveal_strlit("3d");
    reveal_strlit("1w");
    let name = interval.native_name()->0;
    let digits = name.drop_last();
    assert(digits.len() == 1 || digits.len() == 2);
    assert(crate::text::digit(digits[0]) && crate::text::digit(digits.last()));
    if digits.len() == 1 {
        assert(crate::text::digits_value(digits.drop_last()) == 0);
        assert(crate::text::digits_value(digits) == digits[0] as int - 48);
    } else {
        let first = digits.drop_last();
        assert(crate::text::digits_value(first.drop_last()) == 0);
        assert(crate::text::digits_value(first) == digits[0] as int - 48);
        assert(crate::text::digits_value(digits) == 10 * (digits[0] as int - 48) + (digits[1] as int
            - 48));
    }
}

/// No interval of minutes that the exchange has, shorter than a custom one and
/// dividing it, is longer than its base. A custom interval of days is built
/// from days.
pub proof fn the_base_is_the_longest_that_divides(interval: Interval, other: u32)
    requires
        interval.supported(),
        interval.native_name() is None,
    ensures
        interval matches Interval::Minutes(minutes) ==> Interval::Minutes(
            other,
        ).native_name() is Some && other < minutes && minutes % other == 0 ==> (
        interval.base() matches Some(Interval::Minutes(base)) && other <= base),
        interval is Days ==> interval.base() == Some(Interval::Days(1)),
        interval is Seconds ==> interval.base() is None,
{
    if let Interval::Minutes(minutes) = interval {
        custom_intervals_have_a_native_base(interval);
        let witness: u32 = if minutes == 180 {
            60
        } else if minutes == 90 {
            30
        } else if minutes == 45 {
            15
        } else if minutes == 20 || minutes == 10 {
            5
        } else {
            1
        };
        assert(Interval::is_minute_base(minutes, witness));
        let picked = choose|b: u32| Interval::is_minute_base(minutes, b);
        assert(Interval::is_minute_base(minutes, picked));
        if Interval::Minutes(other).native_name() is Some {
            assert(native_minutes(other));
        }
    }
}

/// White space around a name does not count, and neither does the case of its
/// letter.
pub proof fn names_are_read_without_case(digits: Seq<char>, unit: char)
    requires
        crate::text::all_digits(digits),
        digits.len() > 0,
        unit == 's' || unit == 'd' || unit == 'w',
    ensures
        ({
            let upper = if unit == 's' {
                'S'
            } else if unit == 'd' {
                'D'
            } else {
                'W'
            };
            parsed_interval(digits.push(unit)) == parsed_interval(digits.push(upper))
        }),
{
    let upper = if unit == 's' {
        'S'
    } else if unit == 'd' {
        'D'
    } else {
        'W'
    };
    let a = digits.push(unit);
    let b = digits.push(upper);
    assert(crate::text::digit(digits[0]));
    untrimmed(a);
    untrimmed(b);
    assert(a.len() >= 2 && b.len() >= 2);
    assert(a.drop_last() =~= digits);
    assert(b.drop_last() =~= digits);
}

/// The places of the times that leave the given remainder.
pub open spec fn places_of_phase(times: Seq<i64>, step: int, phase: int) -> Set<int> {
    Set::new(|i: int| 0 <= i < times.len() && times[i] as int % step == phase)
}

proof fn phases_are_counted(times: Seq<i64>, step: int, phase: int)
    ensures
        places_of_phase(times, step, phase).finite(),
        phase_count(times, step, phase) == places_of_phase(times, step, phase).len(),
    decreases times.len(),
{
    reveal(Seq::filter);
    let places = places_of_phase(times, step, phase);
    if times.len() == 0 {
        assert(places =~= Set::<int>::empty());
    } else {
        let fewer = times.drop_last();
        phases_are_counted(fewer, step, phase);
        let n = times.len() - 1;
        assert(!places_of_phase(fewer, step, phase).contains(n));
        if times[n] as int % step == phase {
            assert(places =~= places_of_phase(fewer, step, phase).insert(n));
        } else {
            assert(places =~= places_of_phase(fewer, step, phase));
        }
    }
}

/// The leading phase is that of one of the times; at least as many times have
/// it as have any other, and where another is as frequent it is the larger.
pub proof fn the_leading_phase_is_the_commonest(
    times: Seq<i64>,
    step: int,
    phase: int,
    i: int,
)
    requires
        leading_phase(times, step, phase),
        0 <= i < times.len(),
    ensures
        places_of_phase(times, step, phase).len() > 0,
        ({
            let other = times[i] as int % step;
            let leading = places_of_phase(times, step, phase).len();
            let count = places_of_phase(times, step, other).len();
            count <= leading && (count == leading ==> other <= phase)
        }),
{
    phases_are_counted(times, step, phase);
    phases_are_counted(times, step, times[i] as int % step);
    let k = choose|k: int| 0 <= k < times.len() && #[trigger] times[k] as int % step == phase;
    assert(places_of_phase(times, step, phase).contains(k));
    if places_of_phase(times, step, phase).len() == 0 {
        assert(places_of_phase(times, step, phase) =~= Set::<int>::empty());
    }
}

/// The intervals that the exchange has are these and no others.
pub proof fn native_intervals_are_these(value: u32)
    ensures
        Interval::Seconds(value).native_name() is None,
        Interval::Minutes(value).native_name() is Some <==> seq![
            1u32, 3, 5, 15, 30, 60, 120, 240, 360, 480, 720,
        ].contains(value),
        Interval::Days(value).native_name() is Some <==> value == 1 || value == 3,
        Interval::Weeks(value).native_name() is Some <==> value == 1,
{
    let minutes = seq![1u32, 3, 5, 15, 30, 60, 120, 240, 360, 480, 720];
    assert(minutes[0] == 1 && minutes[1] == 3 && minutes[2] == 5 && minutes[3] == 15 && minutes[4]
        == 30 && minutes[5] == 60 && minutes[6] == 120 && minutes[7] == 240 && minutes[8] == 360
        && minutes[9] == 480 && minutes[10] == 720);
}

/// Reading the text that an interval is written as gives the interval back.
pub proof fn written_intervals_are_read_back(
    interval: Interval,
    written: String,
    text: &str,
    read: Result<Interval, IntervalParseError>,
)
    requires
        interval.supported(),
        call_ensures(Interval::canonical, (&interval,), written),
        text@ == written@,
        call_ensures(Interval::parse, (text,), read),
    ensures
        read == Ok::<Interval, IntervalParseError>(interval),
{
    canonical_names_are_read_back(interval);
}

/// The exchange aligns only its own intervals of several days by the symbol.
pub proof fn several_days_are_aligned_by_symbol(interval: Interval, r: bool)
    requires
        call_ensures(Interval::uses_symbol_specific_binance_alignment, (&interval,), r),
    ensures
        r <==> interval == Interval::Days(3),
{
}

/// Where the open times are one length apart from each other, or any whole
/// number of lengths, the anchor is the phase that all of them share.
pub proof fn the_anchor_is_the_common_phase(interval: Interval, times: &[i64], r: Option<i64>, i: int)
    requires
        interval.millis() > 0,
        call_ensures(Interval::infer_bucket_anchor_ms, (&interval, times), r),
        0 <= i < times@.len(),
        forall|k: int|
            0 <= k < times@.len() ==> (#[trigger] times@[k] as int - times@[i]) % interval.millis()
                == 0,
    ensures
        r matches Some(anchor) && {
            &&& 0 <= anchor < interval.millis()
            &&& (times@[i] - anchor) % interval.millis() == 0
        },
{
    let step = interval.millis();
    let anchor = r->0 as int;
    let k = choose|k: int|
        0 <= k < times@.len() && #[trigger] times@[k] as int % step == anchor;
    let a = times@[k] as int;
    let b = times@[i] as int;
    assert((times@[k] as int - times@[i]) % step == 0);
    vstd::arithmetic::div_mod::lemma_mod_bound(a, step);
    vstd::arithmetic::div_mod::lemma_fundamental_div_mod(a, step);
    vstd::arithmetic::div_mod::lemma_fundamental_div_mod(a - b, step);
    let p = a / step;
    let q = (a - b) / step;
    assert(b - anchor == (p - q) * step) by (nonlinear_arith)
        requires
            a == step * p + anchor,
            a - b == step * q,
    ;
    vstd::arithmetic::div_mod::lemma_mod_multiples_basic(p - q, step);
}

/// White space around a name does not count.
pub proof fn names_are_read_without_white_space(s: Seq<char>)
    ensures
        parsed_interval(s) == parsed_interval(trimmed(s)),
        trimmed(s).len() == 0 ==> parsed_interval(s) is None,
{
    let t = trimmed(s);
    let ends = crate::text::trimming_takes_white_space_from_the_ends(s);
    if t.len() > 0 {
        assert(t[0] == s[ends.0] && t.last() == s[ends.1 - 1]);
        untrimmed(t);
    } else {
        assert(trimmed(t).len() == 0);
    }
}

/// The last character of a name tells the unit: `S` for seconds, `D` for days,
/// `W` for weeks, in either case, and a digit for minutes. A name that ends in
/// another character names nothing. A lone `D` or `W` is one of it.
pub proof fn the_last_character_tells_the_unit(s: Seq<char>)
    requires
        trimmed(s).len() > 0,
    ensures
        parsed_interval(s) matches Some(interval) ==> {
            let c = trimmed(s).last();
            &&& interval is Seconds <==> c == 's' || c == 'S'
            &&& interval is Days <==> c == 'd' || c == 'D'
            &&& interval is Weeks <==> c == 'w' || c == 'W'
            &&& interval is Minutes <==> '0' <= c <= '9'
            &&& interval.supported()
        },
        trimmed(s) == seq!['D'] || trimmed(s) == seq!['d'] ==> parsed_interval(s) == Some(
            Interval::Days(1),
        ),
        trimmed(s) == seq!['W'] || trimmed(s) == seq!['w'] ==> parsed_interval(s) == Some(
            Interval::Weeks(1),
        ),
{
    let t = trimmed(s);
    assert(seq!['D'].last() == 'D' && seq!['d'].last() == 'd' && seq!['W'].last() == 'W'
        && seq!['w'].last() == 'w');
    assert(seq!['D'][0] != seq!['W'][0] && seq!['D'][0] != seq!['w'][0] && seq!['d'][0]
        != seq!['W'][0] && seq!['d'][0] != seq!['w'][0]);
    if let Some(interval) = parsed_interval(s) {
        if interval is Minutes {
            let digits = unsigned_digits(t);
            assert(digits.len() > 0 && crate::text::all_digits(digits));
            assert(digits.last() == t.last());
            assert(digit(digits[digits.len() - 1]));
        }
    }
}

/// Buckets can be computed for every instant from the epoch on, whatever the
/// interval, as long as it has a length.
pub proof fn instants_since_the_epoch_have_a_bucket(interval: Interval, timestamp_ms: int)
    requires
        interval.millis() > 0,
        timestamp_ms >= 0,
    ensures
        interval.has_bucket(timestamp_ms),
        !(interval is Weeks) ==> 0 <= interval.bucket(timestamp_ms) <= timestamp_ms,
        interval is Weeks ==> -604_800_000 < interval.bucket(timestamp_ms) <= timestamp_ms,
{
    if !(interval is Weeks) {
        let step = interval.millis();
        floor_is_at_most(timestamp_ms, step);
        vstd::arithmetic::div_mod::lemma_div_pos_is_pos(timestamp_ms, step);
        vstd::arithmetic::mul::lemma_mul_nonnegative(timestamp_ms / step, step);
    }
}

} // verus!
