//! A personal multi-currency savings ledger: a dated time series of
//! holdings per currency, with point updates, conversion of the whole
//! series into one target currency from externally fetched exchange
//! rates, and normalized rolling rate-of-change aggregation over
//! configurable time buckets.
//!
//! Amounts are exact fixed-point numbers (ten-thousandths of a unit),
//! so every arithmetic step has a precise contract; dates are plain
//! calendar triples ordered through an integer day key.

pub mod amount;
pub mod conversions;
pub mod date;
pub mod parse;
pub mod statistics;
pub mod storage;
pub mod table;
pub mod text;
