//! Canonicalizes a URL into a deterministic, comparable string form:
//! collapses `.` / `..` / doubled-slash path segments, percent-encodes path
//! segments consistently, and rewrites the query string with parameters
//! decoded, optionally filtered by caller-supplied removal patterns, and
//! sorted by key.

pub mod error;
pub mod normalizer;
pub mod outside;
pub mod path;
pub mod query;
pub mod text;
