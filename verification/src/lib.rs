//! A minimal execution engine for a tape-based, bracket-structured
//! instruction language: a sanitizer that keeps only the recognized
//! symbols, a jump-table builder that matches loop brackets in one
//! linear scan, and a fetch-execute engine over a fixed-size tape of
//! wrapping byte cells.

pub mod engine;
pub mod jumps;
pub mod sanitize;

pub use engine::Machine;
pub use jumps::calculate_jumps;
pub use jumps::Jumps;
pub use jumps::JumpsError;
pub use sanitize::cleanup;
