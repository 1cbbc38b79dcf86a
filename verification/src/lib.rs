//! Multi-format code-coverage ingestion, storage, and diff-coverage analysis.
//!
//! Coverage reports from several instrumentation toolchains (LCOV, Cobertura,
//! JaCoCo, Clover, Istanbul, Go cover) are parsed into one uniform in-memory
//! model, stored in a relational coverage store with union semantics across
//! reports, and queried to compute diff coverage: which lines added by a
//! patch are covered by any ingested report.

pub mod detect;
pub mod diff;
pub mod error;
pub mod ingest;
pub mod json;
pub mod model;
pub mod parsers;
pub mod report;
pub mod sql;
pub mod store;
pub mod text;
pub mod xml;
