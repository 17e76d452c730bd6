//! A line-oriented delimited-text encoder.
//!
//! The encoder consumes a depth-first traversal of a structured value —
//! enter-record, scalar-value and absent-value events — and reconstructs the
//! line / segment / inline-group layout of the output purely from
//! field-count bookkeeping and name matching against the root record.

pub mod encoder;
pub mod error;
pub mod laws;
pub mod state;
pub mod text;
