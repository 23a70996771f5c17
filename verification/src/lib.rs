//! Decimal digits of pi by Chudnovsky binary splitting, and the bookkeeping
//! that tests the digit stream for uniformity.
//!
//! * [`big`]: the arbitrary-precision integer the generator computes with, and
//!   the arithmetic it takes from `num-bigint`.
//! * [`decimal`]: the decimal expansion of a natural number.
//! * [`split`]: the series terms, their combination over a range of term
//!   indices, and the divide-and-conquer evaluation.
//! * [`isqrt`]: the integer square root by Newton's method.
//! * [`digits`]: the digit generator built from the three above.
//! * [`sample`]: a reading of the digit counters, and the distribution
//!   metrics that are exact ratios of it.
//! * [`stats`]: digit counters, the first digits, the window of recent
//!   digits and the sampled history.
//! * [`scheduler`]: the rounds of growing precision.
//! * [`format`]: digit grouping for display.

pub mod big;
pub mod decimal;
pub mod digits;
pub mod format;
pub mod isqrt;
pub mod sample;
pub mod scheduler;
pub mod split;
pub mod stats;
