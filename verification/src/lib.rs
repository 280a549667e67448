//! Verified core of a market-data gateway for a perpetuals exchange.
//!
//! The crate models the gateway's three coordinated subsystems:
//! pooled upstream socket connections with deduplicated, reference-counted
//! topic subscriptions and fan-out delivery (`pool`), the conditional-order
//! trigger queue and its scheduler (`cond`), and the time-weighted slice
//! (TWAP) order executor (`twap`). Prices and sizes are exact rationals
//! (`px`), so every trigger comparison and every derived candle is computed
//! exactly rather than in floating point. Socket, HTTP and serialization
//! plumbing live outside this crate; the library takes decoded values in and
//! hands frames and orders back as plain data.

pub mod candle;
pub mod cond;
pub mod config;
pub mod error;
pub mod market;
pub mod model;
pub mod net;
pub mod pool;
pub mod px;
pub mod twap;
