//! Aggregation and scoring engine for flood-mitigation project records.
//!
//! The library ingests validated project records (region, island, contractor,
//! budget and cost in integer cents, calendar dates, funding year) and derives
//! two reports: a regional efficiency summary and a contractor performance
//! ranking.  All money amounts are held in integer cents; averages,
//! percentages and scores are held as rounded fixed-point integers
//! (centi-units for two decimal places, deci-units for one), so every
//! computation is exact integer arithmetic.

pub mod contractor;
pub mod dates;
pub mod fixed;
pub mod format;
pub mod parse;
pub mod regional;
pub mod reports;
pub mod stats;
pub mod store;
