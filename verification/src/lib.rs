//! A record store for named mares.
//!
//! The store hands out identifiers that sort in the order they were issued,
//! keeps one record per identifier, rejects edits made against a stale
//! `modified_at` marker, and serves the records in windows ordered by
//! identifier.  Every function carries a contract.  Verus proves each of
//! them but those of the four functions in `utils::ulid` that call the
//! `ulid` crate, which are taken on trust and say so.
pub mod database;
pub mod utils;
