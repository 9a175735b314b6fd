//! The events of the exchange's streams.

use crate::binance::rest::reads;
use crate::domain::candle::Candle;
use crate::domain::number::Double;
use crate::engine::aggregator::TradeTick;
use vstd::prelude::*;
use vstd::string::*;

verus! {

/// What happened on the market.
#[derive(Debug, PartialEq, Eq)]
pub enum MarketEvent {
    OpenKline { symbol: String, interval: String, candle: Candle },
    ClosedKline { symbol: String, interval: String, candle: Candle },
    AggTrade { symbol: String, trade: TradeTick },
    Ignored,
}

#[derive(Debug, PartialEq, Eq)]
pub enum BinanceParseError {
    Json(String),
    Number(String),
    Unsupported,
}

impl BinanceParseError {
    pub open spec fn text(self) -> Seq<char> {
        match self {
            BinanceParseError::Json(reason) => "invalid json: "@ + reason@,
            BinanceParseError::Number(reason) => "invalid number: "@ + reason@,
            BinanceParseError::Unsupported => "unsupported stream event"@,
        }
    }

    pub fn message(&self) -> (r: String)
        ensures
            r@ == self.text(),
    {
        match self {
            BinanceParseError::Json(reason) => "invalid json: ".to_owned().concat(reason.as_str()),
            BinanceParseError::Number(reason) => "invalid number: ".to_owned().concat(
                reason.as_str(),
            ),
            BinanceParseError::Unsupported => "unsupported stream event".to_owned(),
        }
    }
}

/// A candle as the stream writes it.
#[derive(Debug, PartialEq, Eq)]
pub struct RawKline {
    pub open_time: i64,
    pub close_time: i64,
    pub interval: String,
    pub open: String,
    pub close: String,
    pub high: String,
    pub low: String,
    pub volume: String,
    pub trade_count: u64,
    pub is_closed: bool,
    pub quote_volume: String,
}

#[derive(Debug, PartialEq, Eq)]
pub struct KlineEvent {
    pub symbol: String,
    pub kline: RawKline,
}

#[derive(Debug, PartialEq, Eq)]
pub struct AggTradeEvent {
    pub symbol: String,
    pub price: String,
    pub quantity: String,
    pub trade_time: i64,
}

/// A message of a stream.
#[derive(Debug, PartialEq, Eq)]
pub enum StreamEvent {
    Kline(KlineEvent),
    AggTrade(AggTradeEvent),
}

/// What `read` made of the six numbers of a candle, in the order open, high,
/// low, close, volume, quote volume.
pub struct KlineNumbers {
    pub open: Result<Double, String>,
    pub high: Result<Double, String>,
    pub low: Result<Double, String>,
    pub close: Result<Double, String>,
    pub volume: Result<Double, String>,
    pub quote_volume: Result<Double, String>,
}

/// `n` has what `read` makes of the texts.
pub open spec fn numbers_read<R: Fn(&String) -> Result<Double, String>>(
    k: RawKline,
    read: R,
    n: KlineNumbers,
) -> bool {
    &&& call_ensures(read, (&k.open,), n.open)
    &&& call_ensures(read, (&k.high,), n.high)
    &&& call_ensures(read, (&k.low,), n.low)
    &&& call_ensures(read, (&k.close,), n.close)
    &&& call_ensures(read, (&k.volume,), n.volume)
    &&& call_ensures(read, (&k.quote_volume,), n.quote_volume)
}

/// The candle of the six numbers, or the first that is none.
pub open spec fn candle_made(k: RawKline, n: KlineNumbers) -> Result<Candle, String> {
    if n.open is Err {
        Err(n.open->Err_0)
    } else if n.high is Err {
        Err(n.high->Err_0)
    } else if n.low is Err {
        Err(n.low->Err_0)
    } else if n.close is Err {
        Err(n.close->Err_0)
    } else if n.volume is Err {
        Err(n.volume->Err_0)
    } else if n.quote_volume is Err {
        Err(n.quote_volume->Err_0)
    } else {
        Ok(
            Candle {
                open_time: k.open_time,
                close_time: k.close_time,
                open: n.open->Ok_0,
                high: n.high->Ok_0,
                low: n.low->Ok_0,
                close: n.close->Ok_0,
                volume: n.volume->Ok_0,
                quote_volume: n.quote_volume->Ok_0,
                trade_count: k.trade_count,
                is_closed: k.is_closed,
            },
        )
    }
}

/// The event that a candle message is, given its numbers.
pub open spec fn kline_event_made(
    event: KlineEvent,
    n: KlineNumbers,
    r: Result<MarketEvent, BinanceParseError>,
) -> bool {
    match candle_made(event.kline, n) {
        Ok(candle) => if event.kline.is_closed {
            r == Ok::<MarketEvent, BinanceParseError>(
                MarketEvent::ClosedKline {
                    symbol: event.symbol,
                    interval: event.kline.interval,
                    candle,
                },
            )
        } else {
            r == Ok::<MarketEvent, BinanceParseError>(
                MarketEvent::OpenKline {
                    symbol: event.symbol,
                    interval: event.kline.interval,
                    candle,
                },
            )
        },
        Err(reason) => r == Err::<MarketEvent, BinanceParseError>(
            BinanceParseError::Number(reason),
        ),
    }
}

/// The event that a trade message is, given its price and quantity.
pub open spec fn trade_event_made(
    event: AggTradeEvent,
    price: Result<Double, String>,
    quantity: Result<Double, String>,
    r: Result<MarketEvent, BinanceParseError>,
) -> bool {
    if price is Err {
        r == Err::<MarketEvent, BinanceParseError>(BinanceParseError::Number(price->Err_0))
    } else if quantity is Err {
        r == Err::<MarketEvent, BinanceParseError>(BinanceParseError::Number(quantity->Err_0))
    } else {
        r == Ok::<MarketEvent, BinanceParseError>(
            MarketEvent::AggTrade {
                symbol: event.symbol,
                trade: TradeTick {
                    timestamp_ms: event.trade_time,
                    price: price->Ok_0,
                    quantity: quantity->Ok_0,
                },
            },
        )
    }
}

/// The readings of a trade's price and quantity.
pub open spec fn trade_read<R: Fn(&String) -> Result<Double, String>>(
    event: AggTradeEvent,
    read: R,
    price: Result<Double, String>,
    quantity: Result<Double, String>,
) -> bool {
    call_ensures(read, (&event.price,), price) && call_ensures(read, (&event.quantity,), quantity)
}

/// The event that a message of a stream is.
pub open spec fn event_read<R: Fn(&String) -> Result<Double, String>>(
    message: StreamEvent,
    read: R,
    r: Result<MarketEvent, BinanceParseError>,
) -> bool {
    match message {
        StreamEvent::Kline(event) => exists|n: KlineNumbers| #[trigger]
            numbers_read(event.kline, read, n) && kline_event_made(event, n, r),
        StreamEvent::AggTrade(event) => exists|
            price: Result<Double, String>,
            quantity: Result<Double, String>,
        | #[trigger]
            trade_read(event, read, price, quantity) && trade_event_made(event, price, quantity, r),
    }
}

fn make_candle(k: &RawKline, n: KlineNumbers) -> (r: Result<Candle, String>)
    ensures
        r == candle_made(*k, n),
{
    let open = match n.open {
        Ok(number) => number,
        Err(reason) => {
            return Err(reason);
        },
    };
    let high = match n.high {
        Ok(number) => number,
        Err(reason) => {
            return Err(reason);
        },
    };
    let low = match n.low {
        Ok(number) => number,
        Err(reason) => {
            return Err(reason);
        },
    };
    let close = match n.close {
        Ok(number) => number,
        Err(reason) => {
            return Err(reason);
        },
    };
    let volume = match n.volume {
        Ok(number) => number,
        Err(reason) => {
            return Err(reason);
        },
    };
    let quote_volume = match n.quote_volume {
        Ok(number) => number,
        Err(reason) => {
            return Err(reason);
        },
    };
    Ok(
        Candle {
            open_time: k.open_time,
            close_time: k.close_time,
            open,
            high,
            low,
            close,
            volume,
            quote_volume,
            trade_count: k.trade_count,
            is_closed: k.is_closed,
        },
    )
}

/// The event that a message of a combined stream is. `read` makes numbers of
/// texts; the first text that is no number decides the error.
pub fn parse_combined_stream_message<R: Fn(&String) -> Result<Double, String>>(
    message: StreamEvent,
    read: &R,
) -> (r: Result<MarketEvent, BinanceParseError>)
    requires
        reads(*read),
    ensures
        event_read(message, *read, r),
{
    match message {
        StreamEvent::Kline(event) => {
            let n = KlineNumbers {
                open: read(&event.kline.open),
                high: read(&event.kline.high),
                low: read(&event.kline.low),
                close: read(&event.kline.close),
                volume: read(&event.kline.volume),
                quote_volume: read(&event.kline.quote_volume),
            };
            assert(numbers_read(event.kline, *read, n));
            match make_candle(&event.kline, n) {
                Ok(candle) => {
                    if event.kline.is_closed {
                        Ok(
                            MarketEvent::ClosedKline {
                                symbol: event.symbol,
                                interval: event.kline.interval,
                                candle,
                            },
                        )
                    } else {
                        Ok(
                            MarketEvent::OpenKline {
                                symbol: event.symbol,
                                interval: event.kline.interval,
                                candle,
                            },
                        )
                    }
                },
                Err(reason) => Err(BinanceParseError::Number(reason)),
            }
        },
        StreamEvent::AggTrade(event) => {
            let price = read(&event.price);
            let quantity = read(&event.quantity);
            assert(trade_read(event, *read, price, quantity));
            let price = match price {
                Ok(number) => number,
                Err(reason) => {
                    return Err(BinanceParseError::Number(reason));
                },
            };
            let quantity = match quantity {
                Ok(number) => number,
                Err(reason) => {
                    return Err(BinanceParseError::Number(reason));
                },
            };
            Ok(
                MarketEvent::AggTrade {
                    symbol: event.symbol,
                    trade: TradeTick { timestamp_ms: event.trade_time, price, quantity },
                },
            )
        },
    }
}

/// The candle of a stream message has the message's times, trades and mark, and
/// each of its numbers is what `read` makes of the text under that name. The
/// event is of a closed candle exactly if the message says that it is closed.
pub proof fn candles_have_the_numbers_of_the_message<R: Fn(&String) -> Result<Double, String>>(
    event: KlineEvent,
    read: R,
    made: MarketEvent,
)
    requires
        event_read(StreamEvent::Kline(event), read, Ok::<MarketEvent, BinanceParseError>(made)),
    ensures
        event.kline.is_closed <==> made is ClosedKline,
        !event.kline.is_closed <==> made is OpenKline,
        ({
            let (symbol, interval, candle) = match made {
                MarketEvent::ClosedKline { symbol, interval, candle } => (symbol, interval, candle),
                MarketEvent::OpenKline { symbol, interval, candle } => (symbol, interval, candle),
                _ => arbitrary(),
            };
            let k = event.kline;
            &&& symbol == event.symbol && interval == k.interval
            &&& candle.open_time == k.open_time && candle.close_time == k.close_time
            &&& candle.trade_count == k.trade_count && candle.is_closed == k.is_closed
            &&& call_ensures(read, (&k.open,), Ok::<Double, String>(candle.open))
            &&& call_ensures(read, (&k.high,), Ok::<Double, String>(candle.high))
            &&& call_ensures(read, (&k.low,), Ok::<Double, String>(candle.low))
            &&& call_ensures(read, (&k.close,), Ok::<Double, String>(candle.close))
            &&& call_ensures(read, (&k.volume,), Ok::<Double, String>(candle.volume))
            &&& call_ensures(read, (&k.quote_volume,), Ok::<Double, String>(candle.quote_volume))
        }),
{
    let n = choose|n: KlineNumbers| #[trigger]
        numbers_read(event.kline, read, n) && kline_event_made(
            event,
            n,
            Ok::<MarketEvent, BinanceParseError>(made),
        );
    assert(numbers_read(event.kline, read, n));
}

/// The trade of a stream message has the message's time, and its price and
/// quantity are what `read` makes of their texts.
pub proof fn trades_have_the_numbers_of_the_message<R: Fn(&String) -> Result<Double, String>>(
    event: AggTradeEvent,
    read: R,
    made: MarketEvent,
)
    requires
        event_read(StreamEvent::AggTrade(event), read, Ok::<MarketEvent, BinanceParseError>(made)),
    ensures
        made matches MarketEvent::AggTrade { symbol, trade } && {
            &&& symbol == event.symbol
            &&& trade.timestamp_ms == event.trade_time
            &&& call_ensures(read, (&event.price,), Ok::<Double, String>(trade.price))
            &&& call_ensures(read, (&event.quantity,), Ok::<Double, String>(trade.quantity))
        },
{
}

/// A message is refused only for a number that cannot be read, and for the
/// reason that `read` gives.
pub proof fn messages_are_refused_for_a_number<R: Fn(&String) -> Result<Double, String>>(
    message: StreamEvent,
    read: R,
    error: BinanceParseError,
)
    requires
        event_read(message, read, Err::<MarketEvent, BinanceParseError>(error)),
    ensures
        error matches BinanceParseError::Number(reason) && exists|s: String| #[trigger]
            call_ensures(read, (&s,), Err::<Double, String>(reason)),
{
    match message {
        StreamEvent::Kline(event) => {
            let n = choose|n: KlineNumbers| #[trigger]
                numbers_read(event.kline, read, n) && kline_event_made(
                    event,
                    n,
                    Err::<MarketEvent, BinanceParseError>(error),
                );
            assert(numbers_read(event.kline, read, n));
            assert(error is Number);
            let reason = error->Number_0;
            let k = event.kline;
            if n.open is Err {
                assert(call_ensures(read, (&k.open,), Err::<Double, String>(reason)));
            } else if n.high is Err {
                assert(call_ensures(read, (&k.high,), Err::<Double, String>(reason)));
            } else if n.low is Err {
                assert(call_ensures(read, (&k.low,), Err::<Double, String>(reason)));
            } else if n.close is Err {
                assert(call_ensures(read, (&k.close,), Err::<Double, String>(reason)));
            } else if n.volume is Err {
                assert(call_ensures(read, (&k.volume,), Err::<Double, String>(reason)));
            } else if n.quote_volume is Err {
                assert(call_ensures(read, (&k.quote_volume,), Err::<Double, String>(reason)));
            }
        },
        StreamEvent::AggTrade(event) => {
            let (price, quantity) = choose|
                price: Result<Double, String>,
                quantity: Result<Double, String>,
            | #[trigger]
                trade_read(event, read, price, quantity) && trade_event_made(
                    event,
                    price,
                    quantity,
                    Err::<MarketEvent, BinanceParseError>(error),
                );
            assert(error is Number);
            let reason = error->Number_0;
            if price is Err {
                assert(call_ensures(read, (&event.price,), Err::<Double, String>(reason)));
            } else {
                assert(call_ensures(read, (&event.quantity,), Err::<Double, String>(reason)));
            }
        },
    }
}

/// Where a number of a message cannot be read, the first such number is told,
/// in the order open, high, low, close, volume, quote volume.
pub proof fn the_first_unreadable_number_of_a_candle_is_told<
    R: Fn(&String) -> Result<Double, String>,
>(event: KlineEvent, read: R, reason: String)
    requires
        event_read(
            StreamEvent::Kline(event),
            read,
            Err::<MarketEvent, BinanceParseError>(BinanceParseError::Number(reason)),
        ),
    ensures
        exists|n: KlineNumbers|
            {
                let failed = Err::<Double, String>(reason);
                &&& #[trigger] numbers_read(event.kline, read, n)
                &&& {
                    ||| n.open == failed
                    ||| n.open is Ok && n.high == failed
                    ||| n.open is Ok && n.high is Ok && n.low == failed
                    ||| n.open is Ok && n.high is Ok && n.low is Ok && n.close == failed
                    ||| n.open is Ok && n.high is Ok && n.low is Ok && n.close is Ok && n.volume
                        == failed
                    ||| n.open is Ok && n.high is Ok && n.low is Ok && n.close is Ok
                        && n.volume is Ok && n.quote_volume == failed
                }
            },
{
    let n = choose|n: KlineNumbers| #[trigger]
        numbers_read(event.kline, read, n) && kline_event_made(
            event,
            n,
            Err::<MarketEvent, BinanceParseError>(BinanceParseError::Number(reason)),
        );
    assert(numbers_read(event.kline, read, n));
}

} // verus!
