//! Identifiers and their generator.
pub mod text;
pub mod ulid;
