//! Analysis of Solana blocks: account locks, order-preserving conflict
//! schedules, token-balance trades, and the row plans that persist them.

pub mod account_resolution;
pub mod block_fetch;
pub mod candle_contents;
pub mod candle_store;
pub mod candle_windows;
pub mod candles;
pub mod contention;
pub mod index;
pub mod json;
pub mod ohlcv;
pub mod pipeline;
pub mod price;
pub mod rate_limiter;
pub mod requests;
pub mod retry;
pub mod routes;
pub mod rpc_client;
pub mod sequences;
pub mod storage;
pub mod store_run;
pub mod stored_swaps;
pub mod tables;
pub mod text;
pub mod types;
