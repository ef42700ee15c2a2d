//! Distribution-of-returns analysis for a single instrument's OHLC series:
//! per-bar return and volatility statistics, monthly/quarterly rollups with
//! cross-period chaining, and a turtle-style breakout backtest.
//!
//! Prices are exact integer ticks; ratio-valued statistics are kept as exact
//! numerator/denominator pairs, so every result is a pure function of the
//! input bars.

pub mod data;
pub mod deriver;
pub mod aggregator;
pub mod strategy;
