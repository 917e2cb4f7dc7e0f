//! Edit distances between character sequences: the classic unit-cost
//! Levenshtein distance and a weighted Wagner-Fischer variant whose
//! insertion, deletion and substitution costs are looked up in
//! caller-supplied per-character tables.

pub mod tables;
pub mod unit;
pub mod weighted;

pub use tables::CostTable;
pub use tables::SubstTable;
pub use unit::unit_distance;
pub use weighted::COST_ONE;
pub use weighted::LookupError;
pub use weighted::weighted_distance;
