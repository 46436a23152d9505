//! A library for exploring multimedia-framework debug logs.
//!
//! The parser turns raw log text into typed entries: `parser` states the
//! line grammar as spec functions and proves the tokenizer against it,
//! including a round-trip law for well-formed lines. The query engine
//! answers filtered, paginated (`query`), and time-bucketed (`timeline`)
//! requests over a session's entries, with the filter's conjunctive
//! semantics, the paginator's page algebra, and the bucketing invariants
//! stated and proved. `store` holds each session's entries under an
//! insert-once key; `options` reports the distinct values of each
//! filterable field; `pattern` is the trusted boundary to the regex crate.
pub mod models;
pub mod options;
pub mod parser;
pub mod pattern;
pub mod query;
pub mod store;
pub mod text;
pub mod timeline;
