//! Consolidates delimited tabular files (comma- or tab-separated) into a
//! single deduplicated table restricted to a caller-selected subset of
//! columns, keyed on literal row-tuple equality with a keep-first policy.
//!
//! - [`table`] — the in-memory table and its mathematical model;
//! - [`errors`] — the fatal error taxonomy of a run;
//! - [`text`] — character-level helpers;
//! - [`headers`] — header normalization and provenance tagging;
//! - [`codec`] — the delimited text format: writer, parser, round trip;
//! - [`project`] — restriction to the requested column subset;
//! - [`dedup`] — order-preserving keep-first deduplication;
//! - [`merge`] — the fold that appends and deduplicates tables;
//! - [`pipeline`] — batching and the whole consolidation run.
pub mod table;
pub mod dedup;
pub mod errors;
pub mod text;
pub mod headers;
pub mod project;
pub mod codec;
pub mod pipeline;
pub mod merge;
