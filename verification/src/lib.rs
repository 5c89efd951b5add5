//! Arbitrage detection, execution control and risk control for binary
//! prediction markets.
//!
//! Every amount, price and probability is a whole number of millionths: the
//! collateral token and the outcome tokens both have six decimals. Arithmetic
//! is carried out exactly on wider integers, rounded down to a whole
//! millionth, and held at the ends of the range of `i64`.

pub mod arbitrage;
pub mod arbitrage_laws;
pub mod clock;
pub mod dashboard;
pub mod executor;
pub mod executor_laws;
pub mod feed;
pub mod feed_laws;
pub mod ids;
pub mod json;
pub mod math;
pub mod math_laws;
pub mod order;
pub mod portfolio_laws;
pub mod risk;
pub mod risk_laws;
pub mod table;
pub mod tail_laws;
pub mod text;
pub mod text_laws;
pub mod trade_laws;
pub mod types;
pub mod units;
