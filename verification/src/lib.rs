//! Threat-intelligence indicator aggregation.
//!
//! The crate expands a target name into equivalent search terms through an
//! alias directory, plans one fetch task per (feed, term) pair, and merges
//! the per-task results into one deduplicated indicator sequence while
//! recording per-task failures.

pub mod engine;
pub mod models;
pub mod sources;

pub use engine::AliasResolver;
pub use engine::Engine;
pub use models::Indicator;
pub use models::IndicatorType;
pub use models::QueryConfig;
pub use models::ThreatEntity;
pub use sources::ThreatSource;
