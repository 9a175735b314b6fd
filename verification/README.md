# crypto-candlestick

A service that follows candles of Binance USD-margined futures, keeps them, and
answers for them over HTTP. The rules of the service are a library whose
behaviour is stated in contracts and proved with Verus; the program around it
talks to the exchange, the database and the clients.

## Layout

| Place | What it holds |
| --- | --- |
| `src/domain` | candles, intervals and the buckets of time, numbers by their bits |
| `src/engine` | rolling trades and short candles into longer ones |
| `src/binance` | subscriptions, stream events, missing history, starting and following live candles, reconnecting |
| `src/indicators` | the `guaili` indicator |
| `src/http` | requests, answers, alert rules, health |
| `src/storage` | stored rows and the queries for them |
| `src/alerts.rs` | when price alerts fire and what they send |
| `src/memory.rs`, `src/series.rs` | the caches that are kept in memory |
| `src/config.rs`, `src/runtime_health.rs` | the configuration and the state of the stream |
| `src/text.rs`, `src/order.rs`, `src/json.rs` | texts, sorted rows, JSON faults |
| `tests` | tests of the library |
| `app` | the program: files, network, database, arithmetic on prices |

Numbers with a fraction are held by their bits. The library compares them
itself; the arithmetic is handed in by the caller as one function, and the
contracts say which steps are taken on which numbers.
