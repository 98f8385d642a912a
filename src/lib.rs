//! Aggregation and ranking over video-game sales records.
//!
//! Sales figures are held as whole thousands of units (one thousandth of a
//! million), so every statistic here is exact integer arithmetic.
pub mod record;
pub mod aggregate;
pub mod rank;
pub mod classify;
pub mod report;
