//! Species resolution and one-time bulk load over a small relational
//! layout, verified end to end.
//!
//! The loader turns a nested import document into species rows, a
//! denormalized attributes blob per row, and derived lookup labels, in one
//! all-or-nothing pass guarded for idempotency.  The resolution engine runs
//! a query label through six ordered matching tiers over those tables and
//! projects the first match into a flat record, parsing the stored blobs
//! back or downgrading them to absent when they do not parse.  The laws
//! module states the properties that tie the pieces together: idempotent
//! bootstrap, cascade convergence, blob round trip, and deterministic
//! exhaustion.

pub mod bytes;
pub mod codec;
pub mod document;
pub mod store;
pub mod resolve;
pub mod loader;
pub mod laws;
