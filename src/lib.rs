//! Per-container memory and CPU accounting: measurement arithmetic,
//! per-container aggregation, and the filter / group / sort / total
//! transformations over the resulting records.
pub mod backend;
pub mod stats;
pub mod pattern;
pub mod pipeline;
pub mod laws;
