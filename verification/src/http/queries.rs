//! Reading the parameters of requests.

use crate::domain::interval::{parsed_interval, Interval};
use crate::domain::number::Double;
use crate::http::routes::{bad_request, HttpError, BAD_REQUEST};
use crate::indicators::guaili::{at_least, GuailiConfig, GuailiPoint, MaType};
use crate::series::newest;
use crate::text::{
    ascii_upper, chars_of, pieces, raise_ascii, same_text, split, string_of, texts_of, to_upper,
    trim, trimmed, uppercase,
};
use vstd::prelude::*;
use vstd::string::*;

verus! {

pub const DEFAULT_RESPONSE_LIMIT: u32 = 200;

pub const DEFAULT_GUAILI_CALC_LIMIT: u32 = 500;

/// A request for candles.
#[derive(Debug, PartialEq, Eq)]
pub struct KlineQuery {
    pub symbol: String,
    pub intervals: Option<String>,
    pub start_time: Option<i64>,
    pub end_time: Option<i64>,
    pub limit: Option<u32>,
    pub closed_only: Option<bool>,
}

/// A request for the indicator.
#[derive(Debug, PartialEq, Eq)]
pub struct GuailiQuery {
    pub symbols: Option<String>,
    pub intervals: Option<String>,
    pub start_time: Option<i64>,
    pub end_time: Option<i64>,
    pub limit: Option<u32>,
    pub calc_limit: Option<u32>,
    pub closed_only: Option<bool>,
    pub ma_length: Option<usize>,
    pub ma_type: Option<String>,
    pub atr_len: Option<usize>,
    pub atr_percent_len: Option<usize>,
    pub max_atr_rank: Option<Double>,
    pub slope_mul: Option<Double>,
    pub use_slope: Option<bool>,
}

/// How many rows to answer with.
pub fn response_limit(limit: Option<u32>) -> (r: u32)
    ensures
        r == match limit {
            Some(given) => given,
            None => DEFAULT_RESPONSE_LIMIT,
        },
{
    match limit {
        Some(given) => given,
        None => DEFAULT_RESPONSE_LIMIT,
    }
}

/// Whether only closed candles are asked for.
pub fn only_closed(closed_only: Option<bool>) -> (r: bool)
    ensures
        r == (closed_only == Some(true)),
{
    match closed_only {
        Some(given) => given,
        None => false,
    }
}

/// A parameter as a value.
pub open spec fn slice_value(input: Option<&str>) -> Option<Seq<char>> {
    match input {
        Some(text) => Some(text@),
        None => None,
    }
}

pub open spec fn string_value(input: Option<String>) -> Option<Seq<char>> {
    match input {
        Some(text) => Some(text@),
        None => None,
    }
}

/// What is wrong with one item of a list of intervals.
pub open spec fn interval_item_fault(item: Seq<char>) -> Option<Seq<char>> {
    if trimmed(item).len() == 0 {
        Some("empty interval in intervals"@)
    } else if parsed_interval(trimmed(item)) is None {
        Some("invalid interval: "@ + trimmed(item))
    } else {
        None
    }
}

/// The item names the interval.
pub open spec fn interval_item(item: Seq<char>, interval: Interval) -> bool {
    interval_item_fault(item) is None && parsed_interval(trimmed(item)) == Some(interval)
}

/// Item number `i` is the first that cannot stand.
pub open spec fn first_bad_interval(items: Seq<Seq<char>>, i: int, text: Seq<char>) -> bool {
    &&& 0 <= i < items.len()
    &&& interval_item_fault(items[i]) == Some(text)
    &&& forall|j: int| 0 <= j < i ==> interval_item_fault(#[trigger] items[j]) is None
}

/// The item is the symbol.
pub open spec fn symbol_item(item: Seq<char>, symbol: Seq<char>) -> bool {
    trimmed(item).len() > 0 && symbol == uppercase(trimmed(item))
}

/// The list of a parameter.
pub open spec fn items_of(input: Option<Seq<char>>) -> Seq<Seq<char>> {
    match input {
        Some(text) => pieces(text, ','),
        None => Seq::empty(),
    }
}

/// The parameter is there and not blank.
pub open spec fn present(input: Option<Seq<char>>) -> bool {
    input matches Some(text) && trimmed(text).len() > 0
}

/// The intervals are those that the parameter lists.
pub open spec fn intervals_listed(input: Option<Seq<char>>, intervals: Seq<Interval>) -> bool {
    &&& present(input)
    &&& intervals.len() == items_of(input).len()
    &&& forall|i: int|
        0 <= i < intervals.len() ==> interval_item(items_of(input)[i], #[trigger] intervals[i])
}

/// The error is what is wrong with the list of intervals.
pub open spec fn intervals_refused(input: Option<Seq<char>>, error: HttpError) -> bool {
    if !present(input) {
        error.says(BAD_REQUEST, "missing intervals"@)
    } else {
        error.status == BAD_REQUEST && exists|i: int| #[trigger]
            first_bad_interval(items_of(input), i, error.message@)
    }
}

/// The symbols are those that the parameter lists.
pub open spec fn symbols_listed(input: Option<Seq<char>>, symbols: Seq<String>) -> bool {
    &&& present(input)
    &&& symbols.len() == items_of(input).len()
    &&& forall|i: int|
        0 <= i < symbols.len() ==> symbol_item(items_of(input)[i], (#[trigger] symbols[i])@)
}

/// The error is what is wrong with the list of symbols.
pub open spec fn symbols_refused(input: Option<Seq<char>>, error: HttpError) -> bool {
    if !present(input) {
        error.says(BAD_REQUEST, "missing symbols"@)
    } else {
        error.says(BAD_REQUEST, "empty symbol in symbols"@) && exists|i: int|
            0 <= i < items_of(input).len() && trimmed(#[trigger] items_of(input)[i]).len() == 0
    }
}

fn read_interval_item(item: &Vec<char>) -> (r: Result<Interval, HttpError>)
    ensures
        match r {
            Ok(interval) => interval_item_fault(item@) is None && parsed_interval(trimmed(item@))
                == Some(interval),
            Err(error) => interval_item_fault(item@) matches Some(text) && error.says(
                BAD_REQUEST,
                text,
            ),
        },
{
    let t = trim(item);
    if t.len() == 0 {
        return Err(bad_request("empty interval in intervals".to_owned()));
    }
    let text = string_of(&t);
    match Interval::parse(text.as_str()) {
        Ok(interval) => Ok(interval),
        Err(error) => Err(bad_request(error.message())),
    }
}

/// Reads a list of intervals, separated by commas.
pub fn parse_intervals(input: Option<&str>) -> (r: Result<Vec<Interval>, HttpError>)
    ensures
        match r {
            Ok(intervals) => intervals_listed(slice_value(input), intervals@),
            Err(error) => intervals_refused(slice_value(input), error),
        },
{
    let text = match input {
        Some(text) => chars_of(text),
        None => {
            return Err(bad_request("missing intervals".to_owned()));
        },
    };
    if trim(&text).len() == 0 {
        return Err(bad_request("missing intervals".to_owned()));
    }
    let items = split(&text, ',');
    let ghost all = pieces(text@, ',');
    let mut intervals: Vec<Interval> = Vec::new();
    let mut i: usize = 0;
    while i < items.len()
        invariant
            i <= items@.len(),
            items@.len() == all.len(),
            present(slice_value(input)),
            all == items_of(slice_value(input)),
            forall|j: int| 0 <= j < items@.len() ==> (#[trigger] items@[j])@ == all[j],
            intervals@.len() == i,
            forall|j: int|
                0 <= j < i ==> interval_item(all[j], #[trigger] intervals@[j]),
        decreases items@.len() - i,
    {
        assert(items@[i as int]@ == all[i as int]);
        match read_interval_item(&items[i]) {
            Ok(interval) => {
                intervals.push(interval);
            },
            Err(error) => {
                assert forall|j: int| 0 <= j < i implies interval_item_fault(
                    #[trigger] all[j],
                ) is None by {
                    assert(interval_item(all[j], intervals@[j]));
                }
                assert(first_bad_interval(all, i as int, error.message@));
                return Err(error);
            },
        }
        i += 1;
    }
    Ok(intervals)
}

/// Reads a list of symbols, separated by commas.
pub fn parse_symbols(input: Option<&str>) -> (r: Result<Vec<String>, HttpError>)
    ensures
        match r {
            Ok(symbols) => symbols_listed(slice_value(input), symbols@),
            Err(error) => symbols_refused(slice_value(input), error),
        },
{
    let text = match input {
        Some(text) => chars_of(text),
        None => {
            return Err(bad_request("missing symbols".to_owned()));
        },
    };
    if trim(&text).len() == 0 {
        return Err(bad_request("missing symbols".to_owned()));
    }
    let items = split(&text, ',');
    let ghost all = pieces(text@, ',');
    let mut symbols: Vec<String> = Vec::new();
    let mut i: usize = 0;
    while i < items.len()
        invariant
            i <= items@.len(),
            items@.len() == all.len(),
            present(slice_value(input)),
            all == items_of(slice_value(input)),
            forall|j: int| 0 <= j < items@.len() ==> (#[trigger] items@[j])@ == all[j],
            symbols@.len() == i,
            forall|j: int|
                0 <= j < i ==> symbol_item(all[j], (#[trigger] symbols@[j])@),
        decreases items@.len() - i,
    {
        assert(items@[i as int]@ == all[i as int]);
        let t = trim(&items[i]);
        if t.len() == 0 {
            assert(trimmed(items_of(slice_value(input))[i as int]).len() == 0);
            return Err(bad_request("empty symbol in symbols".to_owned()));
        }
        let symbol = string_of(&t);
        symbols.push(to_upper(symbol.as_str()));
        i += 1;
    }
    Ok(symbols)
}

pub open spec fn larger_of(a: u32, b: u32) -> u32 {
    if a < b {
        b
    } else {
        a
    }
}

fn larger(a: u32, b: u32) -> (r: u32)
    ensures
        r == larger_of(a, b),
{
    if a < b {
        b
    } else {
        a
    }
}

pub open spec fn length_or(length: Option<usize>, standard: usize) -> usize {
    match length {
        Some(given) => given,
        None => standard,
    }
}

fn choose_length(length: Option<usize>, standard: usize) -> (r: usize)
    ensures
        r == length_or(length, standard),
{
    match length {
        Some(given) => given,
        None => standard,
    }
}

/// How many candles the indicator is computed from: what is asked for, at
/// least as many as are answered with and as the averages take. Lengths count
/// by their low 32 bits.
pub open spec fn calc_limit(query: GuailiQuery, response_limit: u32) -> u32 {
    let asked = match query.calc_limit {
        Some(given) => given,
        None => DEFAULT_GUAILI_CALC_LIMIT,
    };
    let standard = GuailiConfig::standard();
    larger_of(
        larger_of(
            larger_of(
                larger_of(asked, response_limit),
                length_or(query.ma_length, standard.ma_length) as u32,
            ),
            length_or(query.atr_percent_len, standard.atr_percent_len) as u32,
        ),
        15,
    )
}

pub fn guaili_calc_limit(query: &GuailiQuery, response_limit: u32) -> (r: u32)
    ensures
        r == calc_limit(*query, response_limit),
{
    let standard = GuailiConfig::default();
    let asked: u32 = match query.calc_limit {
        Some(given) => given,
        None => DEFAULT_GUAILI_CALC_LIMIT,
    };
    let ma_length: usize = choose_length(query.ma_length, standard.ma_length);
    let rank_length: usize = choose_length(query.atr_percent_len, standard.atr_percent_len);
    let limit: u32 = larger(asked, response_limit);
    let limit: u32 = larger(
        limit,
        #[verifier::truncate]
        (ma_length as u32),
    );
    let limit: u32 = larger(
        limit,
        #[verifier::truncate]
        (rank_length as u32),
    );
    larger(limit, 15)
}

/// The kind of average that a text names, in upper case and without white
/// space around it.
pub open spec fn named_ma_type(name: Seq<char>) -> Option<MaType> {
    if name == "SMA"@ {
        Some(MaType::Sma)
    } else if name == "EMA"@ {
        Some(MaType::Ema)
    } else if name == "SMMA"@ || name == "SMMA (RMA)"@ || name == "RMA"@ {
        Some(MaType::Smma)
    } else if name == "WMA"@ {
        Some(MaType::Wma)
    } else if name == "VWMA"@ {
        Some(MaType::Vwma)
    } else {
        None
    }
}

/// The text that is given, or the standard.
pub open spec fn ma_type_text(input: Option<&str>) -> Seq<char> {
    match input {
        Some(text) => text@,
        None => "EMA"@,
    }
}

pub open spec fn wished_ma_type(input: Option<&str>) -> Option<MaType> {
    named_ma_type(ascii_upper(trimmed(ma_type_text(input))))
}

pub fn parse_ma_type(input: Option<&str>) -> (r: Result<MaType, HttpError>)
    ensures
        match r {
            Ok(ma_type) => wished_ma_type(input) == Some(ma_type),
            Err(error) => wished_ma_type(input) is None && error.says(
                BAD_REQUEST,
                "unsupported maType: "@ + match input {
                    Some(text) => text@,
                    None => ""@,
                },
            ),
        },
{
    let text = match input {
        Some(text) => text,
        None => "EMA",
    };
    let name = string_of(&raise_ascii(&trim(&chars_of(text))));
    let name = name.as_str();
    if same_text(name, "SMA") {
        Ok(MaType::Sma)
    } else if same_text(name, "EMA") {
        Ok(MaType::Ema)
    } else if same_text(name, "SMMA") || same_text(name, "SMMA (RMA)") || same_text(name, "RMA") {
        Ok(MaType::Smma)
    } else if same_text(name, "WMA") {
        Ok(MaType::Wma)
    } else if same_text(name, "VWMA") {
        Ok(MaType::Vwma)
    } else {
        let given = match input {
            Some(text) => text,
            None => "",
        };
        Err(bad_request("unsupported maType: ".to_owned().concat(given)))
    }
}

pub open spec fn ma_type_title(ma_type: MaType) -> Seq<char> {
    match ma_type {
        MaType::Sma => "SMA"@,
        MaType::Ema => "EMA"@,
        MaType::Smma => "SMMA (RMA)"@,
        MaType::Wma => "WMA"@,
        MaType::Vwma => "VWMA"@,
    }
}

pub fn ma_type_name(ma_type: MaType) -> (r: &'static str)
    ensures
        r@ == ma_type_title(ma_type),
{
    match ma_type {
        MaType::Sma => "SMA",
        MaType::Ema => "EMA",
        MaType::Smma => "SMMA (RMA)",
        MaType::Wma => "WMA",
        MaType::Vwma => "VWMA",
    }
}

/// The title of a kind of average names it.
pub proof fn ma_type_titles_are_read_back(ma_type: MaType)
    ensures
        named_ma_type(ma_type_title(ma_type)) == Some(ma_type),
{
    reveal_strlit("SMA");
    reveal_strlit("EMA");
    reveal_strlit("SMMA");
    reveal_strlit("SMMA (RMA)");
    reveal_strlit("RMA");
    reveal_strlit("WMA");
    reveal_strlit("VWMA");
    assert("SMA"@[0] == 'S' && "EMA"@[0] == 'E' && "RMA"@[0] == 'R' && "WMA"@[0] == 'W');
    assert("SMMA"@.len() == 4 && "VWMA"@.len() == 4 && "SMMA (RMA)"@.len() == 10);
    assert("SMMA"@[0] == 'S' && "VWMA"@[0] == 'V');
    assert("SMA"@.len() == 3 && "EMA"@.len() == 3 && "RMA"@.len() == 3 && "WMA"@.len() == 3);
}

/// The configuration that a request asks for.
pub open spec fn asked_config(query: GuailiQuery, ma_type: MaType) -> GuailiConfig {
    let standard = GuailiConfig::standard();
    GuailiConfig {
        ma_length: at_least(length_or(query.ma_length, standard.ma_length), 1),
        ma_type,
        atr_len: at_least(length_or(query.atr_len, standard.atr_len), 1),
        atr_percent_len: at_least(length_or(query.atr_percent_len, standard.atr_percent_len), 2),
        max_atr_rank: match query.max_atr_rank {
            Some(rank) => rank,
            None => standard.max_atr_rank,
        },
        slope_mul: match query.slope_mul {
            Some(factor) => factor,
            None => standard.slope_mul,
        },
        use_slope: match query.use_slope {
            Some(wish) => wish,
            None => standard.use_slope,
        },
    }
}

fn lift(n: usize, least: usize) -> (r: usize)
    ensures
        r == at_least(n, least),
{
    if n < least {
        least
    } else {
        n
    }
}

pub open spec fn ma_type_of(query: GuailiQuery) -> Option<MaType> {
    match query.ma_type {
        Some(text) => named_ma_type(ascii_upper(trimmed(text@))),
        None => named_ma_type(ascii_upper(trimmed("EMA"@))),
    }
}

pub fn guaili_config_from_query(query: &GuailiQuery) -> (r: Result<GuailiConfig, HttpError>)
    ensures
        match r {
            Ok(config) => ma_type_of(*query) matches Some(ma_type) && config == asked_config(
                *query,
                ma_type,
            ),
            Err(error) => ma_type_of(*query) is None && error.says(
                BAD_REQUEST,
                "unsupported maType: "@ + match query.ma_type {
                    Some(text) => text@,
                    None => ""@,
                },
            ),
        },
{
    let standard = GuailiConfig::default();
    let parsed = match &query.ma_type {
        Some(text) => parse_ma_type(Some(text.as_str())),
        None => parse_ma_type(None),
    };
    let ma_type = match parsed {
        Ok(ma_type) => ma_type,
        Err(error) => {
            return Err(error);
        },
    };
    Ok(
        GuailiConfig {
            ma_length: lift(choose_length(query.ma_length, standard.ma_length), 1),
            ma_type,
            atr_len: lift(choose_length(query.atr_len, standard.atr_len), 1),
            atr_percent_len: lift(
                choose_length(query.atr_percent_len, standard.atr_percent_len),
                2,
            ),
            max_atr_rank: match query.max_atr_rank {
                Some(rank) => rank,
                None => standard.max_atr_rank,
            },
            slope_mul: match query.slope_mul {
                Some(factor) => factor,
                None => standard.slope_mul,
            },
            use_slope: match query.use_slope {
                Some(wish) => wish,
                None => standard.use_slope,
            },
        },
    )
}

// ---------------------------------------------------------------------------
// Whole requests.
// ---------------------------------------------------------------------------

/// A request for candles, read.
#[derive(Debug)]
pub struct KlineRequest {
    pub symbol: String,
    pub intervals: Vec<Interval>,
    pub limit: u32,
    pub closed_only: bool,
}

fn read_intervals(input: &Option<String>) -> (r: Result<Vec<Interval>, HttpError>)
    ensures
        match r {
            Ok(intervals) => intervals_listed(string_value(*input), intervals@),
            Err(error) => intervals_refused(string_value(*input), error),
        },
{
    match input {
        Some(text) => parse_intervals(Some(text.as_str())),
        None => parse_intervals(None),
    }
}

fn read_symbols(input: &Option<String>) -> (r: Result<Vec<String>, HttpError>)
    ensures
        match r {
            Ok(symbols) => symbols_listed(string_value(*input), symbols@),
            Err(error) => symbols_refused(string_value(*input), error),
        },
{
    match input {
        Some(text) => parse_symbols(Some(text.as_str())),
        None => parse_symbols(None),
    }
}

/// Reads a request for candles.
pub fn kline_request(query: &KlineQuery) -> (r: Result<KlineRequest, HttpError>)
    ensures
        match r {
            Ok(request) => {
                &&& intervals_listed(string_value(query.intervals), request.intervals@)
                &&& request.symbol@ == uppercase(query.symbol@)
                &&& request.limit == match query.limit {
                    Some(given) => given,
                    None => DEFAULT_RESPONSE_LIMIT,
                }
                &&& request.closed_only == (query.closed_only == Some(true))
            },
            Err(error) => intervals_refused(string_value(query.intervals), error),
        },
{
    match read_intervals(&query.intervals) {
        Ok(intervals) => Ok(
            KlineRequest {
                symbol: to_upper(query.symbol.as_str()),
                intervals,
                limit: response_limit(query.limit),
                closed_only: only_closed(query.closed_only),
            },
        ),
        Err(error) => Err(error),
    }
}

/// A request for the indicator, read.
#[derive(Debug)]
pub struct GuailiRequest {
    pub symbols: Vec<String>,
    pub intervals: Vec<Interval>,
    pub limit: u32,
    pub calc_limit: u32,
    pub closed_only: bool,
    pub config: GuailiConfig,
}

/// The request has what the query asks for.
pub open spec fn guaili_read(query: GuailiQuery, request: GuailiRequest) -> bool {
    &&& symbols_listed(string_value(query.symbols), request.symbols@)
    &&& intervals_listed(string_value(query.intervals), request.intervals@)
    &&& request.limit == match query.limit {
        Some(given) => given,
        None => DEFAULT_RESPONSE_LIMIT,
    }
    &&& request.calc_limit == calc_limit(query, request.limit)
    &&& request.closed_only == (query.closed_only == Some(true))
    &&& ma_type_of(query) matches Some(ma_type) && request.config == asked_config(query, ma_type)
}

/// The error is the first thing that is wrong: with the symbols, the
/// intervals, the kind of average.
pub open spec fn guaili_refused(query: GuailiQuery, error: HttpError) -> bool {
    ||| symbols_refused(string_value(query.symbols), error)
    ||| {
        &&& exists|symbols: Seq<String>| symbols_listed(string_value(query.symbols), symbols)
        &&& intervals_refused(string_value(query.intervals), error)
    }
    ||| {
        &&& exists|symbols: Seq<String>| symbols_listed(string_value(query.symbols), symbols)
        &&& exists|intervals: Seq<Interval>| intervals_listed(string_value(query.intervals), intervals)
        &&& ma_type_of(query) is None
        &&& error.says(
            BAD_REQUEST,
            "unsupported maType: "@ + match query.ma_type {
                Some(text) => text@,
                None => ""@,
            },
        )
    }
}

/// Reads a request for the indicator.
pub fn guaili_request(query: &GuailiQuery) -> (r: Result<GuailiRequest, HttpError>)
    ensures
        match r {
            Ok(request) => guaili_read(*query, request),
            Err(error) => guaili_refused(*query, error),
        },
{
    let symbols = match read_symbols(&query.symbols) {
        Ok(symbols) => symbols,
        Err(error) => {
            return Err(error);
        },
    };
    assert(symbols_listed(string_value(query.symbols), symbols@));
    let intervals = match read_intervals(&query.intervals) {
        Ok(intervals) => intervals,
        Err(error) => {
            return Err(error);
        },
    };
    assert(intervals_listed(string_value(query.intervals), intervals@));
    let config = match guaili_config_from_query(query) {
        Ok(config) => config,
        Err(error) => {
            return Err(error);
        },
    };
    let limit: u32 = response_limit(query.limit);
    Ok(
        GuailiRequest {
            symbols,
            intervals,
            limit,
            calc_limit: guaili_calc_limit(query, limit),
            closed_only: only_closed(query.closed_only),
            config,
        },
    )
}

/// One series of the indicator. Times are milliseconds since the epoch.
#[derive(Debug)]
pub struct GuailiSeries {
    pub interval: String,
    pub start_time: Option<i64>,
    pub end_time: Option<i64>,
    pub count: usize,
    pub latest: Option<GuailiPoint>,
    pub data: Vec<GuailiPoint>,
}

/// The last few of the last rows are the last few of all rows.
proof fn newest_of_newest<T>(rows: Seq<T>, many: int, few: int)
    requires
        0 <= few <= many,
    ensures
        newest(newest(rows, many), few) == newest(rows, few),
{
    assert(newest(newest(rows, many), few) =~= newest(rows, few));
}

/// The series has the last `limit` of the points.
pub open spec fn series_told(
    interval: Interval,
    points: Seq<GuailiPoint>,
    limit: u32,
    r: GuailiSeries,
) -> bool {
    &&& r.interval@ == interval.name()
    &&& r.data@ == newest(points, limit as int)
    &&& r.count == r.data@.len()
    &&& r.start_time == if r.data@.len() > 0 {
        Some(r.data@[0].open_time)
    } else {
        None
    }
    &&& r.end_time == if r.data@.len() > 0 {
        Some(r.data@.last().open_time)
    } else {
        None
    }
    &&& r.latest == if r.data@.len() > 0 {
        Some(r.data@.last())
    } else {
        None
    }
}

/// Two queries ask for the same, but for how many points to answer with.
pub open spec fn same_but_limit(a: GuailiQuery, b: GuailiQuery) -> bool {
    &&& string_value(a.symbols) == string_value(b.symbols)
    &&& string_value(a.intervals) == string_value(b.intervals)
    &&& a.start_time == b.start_time
    &&& a.end_time == b.end_time
    &&& a.calc_limit == b.calc_limit
    &&& a.closed_only == b.closed_only
    &&& a.ma_length == b.ma_length
    &&& string_value(a.ma_type) == string_value(b.ma_type)
    &&& a.atr_len == b.atr_len
    &&& a.atr_percent_len == b.atr_percent_len
    &&& a.max_atr_rank == b.max_atr_rank
    &&& a.slope_mul == b.slope_mul
    &&& a.use_slope == b.use_slope
}

/// The limit decides how much is answered, not how much is computed: of two
/// queries that differ only in a limit that the calculation covers anyway, both
/// ask for the same series, the same history and the same settings.
pub proof fn limits_leave_the_calculation(
    longer: GuailiQuery,
    shorter: GuailiQuery,
    long_request: GuailiRequest,
    short_request: GuailiRequest,
)
    requires
        same_but_limit(longer, shorter),
        guaili_read(longer, long_request),
        guaili_read(shorter, short_request),
        short_request.limit <= long_request.limit <= short_request.calc_limit,
    ensures
        long_request.calc_limit == short_request.calc_limit,
        long_request.closed_only == short_request.closed_only,
        long_request.config == short_request.config,
        long_request.intervals@ == short_request.intervals@,
        texts_of(long_request.symbols@) == texts_of(short_request.symbols@),
{
    assert(long_request.intervals@ =~= short_request.intervals@);
    assert(texts_of(long_request.symbols@) =~= texts_of(short_request.symbols@));
}

/// Of the same points, a smaller limit answers with the end of what a larger
/// one answers with, and with the same latest point; a limit of one answers
/// with that point alone.
pub proof fn limits_shorten_the_answer(
    interval: Interval,
    points: Seq<GuailiPoint>,
    longer: GuailiSeries,
    shorter: GuailiSeries,
    many: u32,
    few: u32,
)
    requires
        1 <= few <= many,
        series_told(interval, points, many, longer),
        series_told(interval, points, few, shorter),
    ensures
        shorter.data@ == newest(longer.data@, few as int),
        shorter.latest == longer.latest,
        shorter.data@.len() == 0 <==> longer.data@.len() == 0,
        longer.data@.len() <= many,
        few == 1 && longer.data@.len() > 0 ==> shorter.data@ == seq![longer.data@.last()],
{
    newest_of_newest(points, many as int, few as int);
    if few == 1 && longer.data@.len() > 0 {
        assert(shorter.data@ =~= seq![longer.data@.last()]);
    }
}

/// The series of the last `limit` points.
pub fn guaili_series(interval: &Interval, points: Vec<GuailiPoint>, limit: u32) -> (r: GuailiSeries)
    ensures
        series_told(*interval, points@, limit, r),
{
    let mut points = points;
    let ghost all = points@;
    let data = if points.len() > limit as usize {
        let from: usize = points.len() - limit as usize;
        points.split_off(from)
    } else {
        points
    };
    assert(data@ =~= newest(all, limit as int));
    let count: usize = data.len();
    let (start_time, end_time, latest) = if count > 0 {
        (Some(data[0].open_time), Some(data[count - 1].open_time), Some(data[count - 1]))
    } else {
        (None, None, None)
    };
    GuailiSeries { interval: interval.canonical(), start_time, end_time, count, latest, data }
}

/// The calculation takes in at least what was asked for, what is told, both
/// lengths and fifteen candles, and no more than the largest of those.
pub proof fn the_calculation_takes_in_enough(query: GuailiQuery, response_limit: u32)
    ensures
        ({
            let taken = calc_limit(query, response_limit);
            let asked = if query.calc_limit is Some {
                query.calc_limit->0
            } else {
                DEFAULT_GUAILI_CALC_LIMIT
            };
            let average = if query.ma_length is Some {
                query.ma_length->0 as u32
            } else {
                GuailiConfig::standard().ma_length as u32
            };
            let ranked = if query.atr_percent_len is Some {
                query.atr_percent_len->0 as u32
            } else {
                GuailiConfig::standard().atr_percent_len as u32
            };
            &&& taken >= asked && taken >= response_limit && taken >= average && taken >= ranked
                && taken >= 15
            &&& taken == asked || taken == response_limit || taken == average || taken == ranked
                || taken == 15
        }),
{
}

/// What is asked for is used: a length as it is, but at least one, and at least
/// two for the ranks; the rest as it is. What is not asked for is standard.
pub proof fn wishes_are_met(query: GuailiQuery, ma_type: MaType)
    ensures
        ({
            let config = asked_config(query, ma_type);
            let standard = GuailiConfig::standard();
            &&& config.ma_type == ma_type
            &&& query.ma_length matches Some(n) ==> n >= 1 ==> config.ma_length == n
            &&& query.ma_length == Some(0usize) ==> config.ma_length == 1
            &&& query.ma_length is None ==> config.ma_length == standard.ma_length
            &&& query.atr_len matches Some(n) ==> n >= 1 ==> config.atr_len == n
            &&& query.atr_len == Some(0usize) ==> config.atr_len == 1
            &&& query.atr_len is None ==> config.atr_len == standard.atr_len
            &&& query.atr_percent_len matches Some(n) ==> n >= 2 ==> config.atr_percent_len == n
            &&& query.atr_percent_len matches Some(n) ==> n < 2 ==> config.atr_percent_len == 2
            &&& query.atr_percent_len is None ==> config.atr_percent_len
                == standard.atr_percent_len
            &&& query.max_atr_rank matches Some(rank) ==> config.max_atr_rank == rank
            &&& query.max_atr_rank is None ==> config.max_atr_rank == standard.max_atr_rank
            &&& query.slope_mul matches Some(factor) ==> config.slope_mul == factor
            &&& query.slope_mul is None ==> config.slope_mul == standard.slope_mul
            &&& query.use_slope matches Some(wish) ==> config.use_slope == wish
            &&& query.use_slope is None ==> config.use_slope == standard.use_slope
        }),
{
}

/// The names of intervals, as they are written in a list.
pub open spec fn names_of(intervals: Seq<Interval>) -> Seq<Seq<char>> {
    intervals.map_values(|interval: Interval| interval.name())
}

proof fn names_are_plain(interval: Interval)
    requires
        interval.supported(),
    ensures
        interval.name().len() > 0,
        forall|i: int|
            0 <= i < interval.name().len() ==> crate::text::digit(#[trigger] interval.name()[i])
                || crate::text::ascii_letter(interval.name()[i]),
        !interval.name().contains(','),
        trimmed(interval.name()) == interval.name(),
{
    let name = interval.name();
    let v: u32 = match interval {
        Interval::Seconds(v) => v,
        Interval::Minutes(v) => v,
        Interval::Days(v) => v,
        Interval::Weeks(v) => v,
    };
    crate::text::decimals_have_no_leading_nought(v as nat);
    let digits = crate::text::decimal(v as nat);
    assert forall|i: int| 0 <= i < name.len() implies crate::text::digit(#[trigger] name[i])
        || crate::text::ascii_letter(name[i]) by {
        if i < digits.len() && name.len() >= digits.len() && name[i] == digits[i] {
            assert(crate::text::digit(digits[i]));
        }
    }
    if name.contains(',') {
        let i = choose|i: int| 0 <= i < name.len() && name[i] == ',';
        assert(crate::text::digit(name[i]) || crate::text::ascii_letter(name[i]));
    }
    assert(crate::text::digit(name[0]) || crate::text::ascii_letter(name[0]));
    let last = name.len() - 1;
    assert(crate::text::digit(name[last]) || crate::text::ascii_letter(name[last]));
    let ends = crate::text::trimming_takes_white_space_from_the_ends(name);
    if ends.0 > 0 {
        assert(crate::text::white_space(name[0]));
    }
    if ends.1 < name.len() {
        assert(crate::text::white_space(name[last]));
    }
    assert(trimmed(name) =~= name);
}

/// A list of the names of supported intervals, with commas between them, is
/// read as those intervals in that order, and is never refused.
pub proof fn listed_intervals_are_read_back(
    intervals: Seq<Interval>,
    found: Seq<Interval>,
    error: HttpError,
)
    requires
        intervals.len() > 0,
        forall|i: int| 0 <= i < intervals.len() ==> (#[trigger] intervals[i]).supported(),
    ensures
        intervals_listed(
            Some(crate::text::joined(names_of(intervals), seq![','])),
            found,
        ) ==> found == intervals,
        !intervals_refused(
            Some(crate::text::joined(names_of(intervals), seq![','])),
            error,
        ),
{
    let names = names_of(intervals);
    let text = crate::text::joined(names, seq![',']);
    assert forall|i: int| 0 <= i < names.len() implies !(#[trigger] names[i]).contains(',') by {
        assert(intervals[i].supported());
        names_are_plain(intervals[i]);
    }
    crate::text::joined_texts_are_the_pieces(names, ',');
    assert(items_of(Some(text)) == names);
    assert forall|i: int| 0 <= i < names.len() implies {
        &&& interval_item_fault(#[trigger] names[i]) is None
        &&& parsed_interval(trimmed(names[i])) == Some(intervals[i])
    } by {
        assert(intervals[i].supported());
        names_are_plain(intervals[i]);
        crate::domain::interval::canonical_names_are_read_back(intervals[i]);
    }
    if intervals_listed(Some(text), found) {
        assert forall|i: int| 0 <= i < found.len() implies #[trigger] found[i] == intervals[i] by {
            assert(interval_item(items_of(Some(text))[i], found[i]));
            assert(parsed_interval(trimmed(names[i])) == Some(intervals[i]));
            assert(interval_item_fault(names[i]) is None);
        }
        assert(found =~= intervals);
    }
    joined_text_is_present(intervals);
    if intervals_refused(Some(text), error) {
        let i = choose|i: int| #[trigger]
            first_bad_interval(items_of(Some(text)), i, error.message@);
        assert(interval_item_fault(names[i]) is None);
    }
}

proof fn joined_text_is_present(intervals: Seq<Interval>)
    requires
        intervals.len() > 0,
        forall|i: int| 0 <= i < intervals.len() ==> (#[trigger] intervals[i]).supported(),
    ensures
        present(Some(crate::text::joined(names_of(intervals), seq![',']))),
{
    let text = crate::text::joined(names_of(intervals), seq![',']);
    joined_text_starts_with_the_first(intervals);
    let ends = crate::text::trimming_takes_white_space_from_the_ends(text);
    if ends.0 == ends.1 {
        assert(crate::text::white_space(text[0]));
        assert(crate::text::digit(text[0]) || crate::text::ascii_letter(text[0]));
    }
}

proof fn joined_text_starts_with_the_first(intervals: Seq<Interval>)
    requires
        intervals.len() > 0,
        forall|i: int| 0 <= i < intervals.len() ==> (#[trigger] intervals[i]).supported(),
    ensures
        ({
            let text = crate::text::joined(names_of(intervals), seq![',']);
            text.len() > 0 && (crate::text::digit(text[0]) || crate::text::ascii_letter(text[0]))
        }),
    decreases intervals.len(),
{
    assert(intervals[0].supported());
    names_are_plain(intervals[0]);
    let name = intervals[0].name();
    assert(crate::text::digit(name[0]) || crate::text::ascii_letter(name[0]));
    assert(names_of(intervals)[0] == name);
    if intervals.len() > 1 {
        let fewer = intervals.drop_last();
        assert forall|i: int| 0 <= i < fewer.len() implies (#[trigger] fewer[i]).supported() by {
            assert(fewer[i] == intervals[i]);
        }
        joined_text_starts_with_the_first(fewer);
        assert(names_of(intervals).drop_last() =~= names_of(fewer));
    }
}

/// A list is refused only for something in it: that there is none, or an item
/// that is empty or names no supported interval.
pub proof fn lists_are_refused_for_a_reason(input: Option<Seq<char>>, error: HttpError)
    requires
        intervals_refused(input, error),
    ensures
        error.status == 400,
        input is None || trimmed(input->0).len() == 0 || exists|i: int|
            0 <= i < pieces(input->0, ',').len() && parsed_interval(
                trimmed(#[trigger] pieces(input->0, ',')[i]),
            ) is None,
{
    if present(input) {
        let i = choose|i: int| #[trigger] first_bad_interval(items_of(input), i, error.message@);
        let item = items_of(input)[i];
        if trimmed(item).len() == 0 {
            assert(crate::text::trimmed(trimmed(item)).len() == 0);
            assert(parsed_interval(trimmed(item)) is None);
        }
    }
}

/// A series tells the last points, as many as the limit says or all, with the
/// times of the first and the last of them and the last itself.
pub proof fn series_tell_the_last_points(
    interval: Interval,
    points: Seq<GuailiPoint>,
    limit: u32,
    r: GuailiSeries,
)
    requires
        series_told(interval, points, limit, r),
    ensures
        r.data@.len() <= limit && r.data@.len() <= points.len(),
        r.data@.len() == limit || r.data@.len() == points.len(),
        forall|i: int|
            0 <= i < r.data@.len() ==> #[trigger] r.data@[i] == points[points.len() - r.data@.len()
                + i],
        r.count == r.data@.len(),
        r.data@.len() > 0 ==> r.latest == Some(points.last()) && r.end_time == Some(
            points.last().open_time,
        ) && r.start_time == Some(points[points.len() - r.data@.len()].open_time),
        r.data@.len() == 0 ==> r.latest is None && r.start_time is None && r.end_time is None,
{
}

/// A limit is used as it is given, two hundred where none is; candles that are
/// open are told unless the request says otherwise.
pub proof fn requests_are_open_unless_told_otherwise(query: KlineQuery, r: KlineRequest)
    requires
        call_ensures(kline_request, (&query,), Ok::<KlineRequest, HttpError>(r)),
    ensures
        query.limit matches Some(given) ==> r.limit == given,
        query.limit is None ==> r.limit == 200,
        r.closed_only <==> query.closed_only == Some(true),
        r.symbol@ == uppercase(query.symbol@),
        r.intervals@.len() == pieces(query.intervals->0@, ',').len(),
        forall|i: int|
            0 <= i < r.intervals@.len() ==> parsed_interval(
                trimmed(pieces(query.intervals->0@, ',')[i]),
            ) == Some(#[trigger] r.intervals@[i]),
{
    assert forall|i: int| 0 <= i < r.intervals@.len() implies parsed_interval(
        trimmed(pieces(query.intervals->0@, ',')[i]),
    ) == Some(#[trigger] r.intervals@[i]) by {
        assert(interval_item(items_of(string_value(query.intervals))[i], r.intervals@[i]));
    }
}

/// The symbols of a request are those of the list, in their order, without the
/// white space around them and in capitals; none is empty.
pub proof fn symbols_are_read_in_order(input: Option<&str>, r: Vec<String>, i: int)
    requires
        call_ensures(parse_symbols, (input,), Ok::<Vec<String>, HttpError>(r)),
        0 <= i < r@.len(),
    ensures
        input is Some,
        r@.len() == pieces(input->0@, ',').len(),
        r@[i]@ == uppercase(trimmed(pieces(input->0@, ',')[i])),
        trimmed(pieces(input->0@, ',')[i]).len() > 0,
{
    assert(symbol_item(items_of(slice_value(input))[i], r@[i]@));
}

/// The averages go by these names and no others.
pub proof fn averages_go_by_these_names(name: Seq<char>)
    ensures
        named_ma_type(name) == Some(MaType::Sma) <==> name == "SMA"@,
        named_ma_type(name) == Some(MaType::Ema) <==> name == "EMA"@,
        named_ma_type(name) == Some(MaType::Smma) <==> name == "SMMA"@ || name == "SMMA (RMA)"@
            || name == "RMA"@,
        named_ma_type(name) == Some(MaType::Wma) <==> name == "WMA"@,
        named_ma_type(name) == Some(MaType::Vwma) <==> name == "VWMA"@,
{
    reveal_strlit("SMA");
    reveal_strlit("EMA");
    reveal_strlit("SMMA");
    reveal_strlit("SMMA (RMA)");
    reveal_strlit("RMA");
    reveal_strlit("WMA");
    reveal_strlit("VWMA");
    assert("SMA"@.len() == 3 && "EMA"@.len() == 3 && "RMA"@.len() == 3 && "WMA"@.len() == 3);
    assert("SMMA"@.len() == 4 && "VWMA"@.len() == 4 && "SMMA (RMA)"@.len() == 10);
    assert("SMA"@[0] == 'S' && "EMA"@[0] == 'E' && "RMA"@[0] == 'R' && "WMA"@[0] == 'W');
    assert("SMMA"@[0] == 'S' && "VWMA"@[0] == 'V');
}

} // verus!
