//! Migration of loosely-specified legacy contest configuration documents
//! into one canonical, strictly-typed model: exact scalar decoders for
//! durations and memory sizes, the canonical `CasesConfig` model with its
//! invariants, a capability-based adapter for legacy schemas, and a
//! filename-normalization planner.

pub mod cases_config;
pub mod config;
pub mod config1;
pub mod decimal;
pub mod duration;
pub mod error;
pub mod memory_size;
pub mod normalize;
