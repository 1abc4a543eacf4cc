//! Separates garbage-collection activity from application activity in a
//! call-stack profile made of open/close events on named frames.
//!
//! The crate offers three things: a classifier that recognises a frame of the
//! collector by its name, a builder that pairs the open and close events of
//! such frames and merges their time spans into a set of disjoint intervals,
//! and a filter that drops the events of such frames from a stream.

pub mod profile;
pub mod classify;
pub mod spans;
pub mod closed;
pub mod span_set;
pub mod builder;
pub mod filter;
pub mod document;
pub mod pairs;
