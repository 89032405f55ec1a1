# block_analysis

Verified analysis of Solana blocks: which accounts each transaction locks, how
parallel a block could have run, what its token balances say about prices, and
what of it is written to a database.

## Layout

| Where | What |
|---|---|
| `src/account_resolution.rs` | account locks of a message, looked-up accounts among them |
| `src/contention.rs` | order-preserving conflict schedule of a block |
| `src/rpc_client.rs`, `src/json.rs` | decoding of `getBlock` and `getSlot` replies |
| `src/block_fetch.rs`, `src/requests.rs`, `src/retry.rs`, `src/rate_limiter.rs` | which slot is requested when, what is tried again, how fast |
| `src/ohlcv.rs`, `src/candles.rs`, `src/price.rs` | trades inferred from balances, candles, exact decimal prices |
| `src/candle_windows.rs`, `src/candle_store.rs` | how candles of different windows relate, how they are stored |
| `src/storage.rs`, `src/tables.rs`, `src/store_run.rs` | planned writes, a model of the tables they go to, and what a run leaves there |
| `src/pipeline.rs` | parsing, batching, and candles of what was stored |
| `src/routes.rs` | what the HTTP layer refuses and serves |
| `src/index.rs`, `src/text.rs`, `src/sequences.rs` | insertion-ordered keys, text, facts about sequences |
| `app/` | the `block-analysis` program: command line, RPC, DuckDB, HTTP |

## What is proved

Contracts give the result of a function over the views of its arguments, for
every input that its `requires` admits. Left open are the random part of a retry
delay and the content type of paths that are not plain. Properties that span
functions are the proof functions named `law_*`, among them:

- a schedule is the only order-preserving one, and its steps run in parallel
- later transactions never change what was decided for earlier ones
- every lock that meets an earlier transaction's is reported, reads too
- ingesting slots and their schedules again changes nothing
- every slot of a run ends with its status, and what is recorded as ingested is
  stored, however the flushes of the run ended
- replacing a slot touches no other
- candles count every trade once, and bound its price
- candles of five minutes are made of the candles of their minutes
- requests are sent no faster than the limiter grants tokens, retries counted

Prices, rates and volumes are whole numbers with a decimal exponent, so they are
compared and added without rounding. `app/` turns them into floating point where
they are stored or served.

## What is trusted

A few calls into other crates are believed on the word of their documentation:
`serde_json` (reading members, writing a list of strings), `rand` (a number in a
range) and `mime_guess` (a type for a file name). Each stands behind a function
whose doc comment says what is claimed.
