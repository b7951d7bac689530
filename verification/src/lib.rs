//! Growth-tier engine for the pet observer calculator.
//!
//! All quantities that the game shows with decimals are held here as exact
//! integers: growth points (BP) in thousandths, raw stats in ten-thousandths,
//! the ability rate in hundredths, probabilities as integer weights.
mod arith;
pub mod enumerate;
pub mod bp;
pub mod custom;
pub mod determined;
pub mod dto;
pub mod engine;
pub mod grow;
mod ids;
pub mod guess;
pub mod matrix;
pub mod numeral;
pub mod petdata;
pub mod rates;
pub mod recover;
pub mod prune;
pub mod answer;
pub mod search;
pub mod stats;
pub mod tuples;
pub mod text;
pub mod tolerance;

pub use rates::{full_rate, full_rate_or_zero, full_rate_formula, full_rates, MAX_TIER};
