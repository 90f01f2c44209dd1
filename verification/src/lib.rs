//! Detection and redaction of personally identifiable information (PII) in
//! free text and in multi-page documents.
//!
//! The crate turns per-token label predictions (offsets, label ids, scores)
//! into merged entity spans and rewrites text or page contents to mask those
//! spans, with the merging and rewriting logic verified.

pub mod document;
pub mod errors;
pub mod gateway;
pub mod labels;
pub mod merge;
pub mod redact;
