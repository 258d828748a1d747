//! The failures a normalization call can report.

use vstd::prelude::*;

verus! {

/// Typed failure surface of the normalizer.
///
/// `UrlParseError` and `RegexParseError` are routine, caller-input-driven
/// failures. `InternalError` (segment bookkeeping gone inconsistent) and
/// `UrlEncodeError` (path encoding produced unrepresentable text) are
/// defensive: the contracts of this crate prove that neither is ever
/// produced here.
#[derive(Debug, Clone, PartialEq)]
pub enum NormalizeError {
    UrlParseError,
    InternalError,
    UrlEncodeError,
    /// Carries the removal pattern that failed to compile.
    RegexParseError(String),
}

impl NormalizeError {
    /// A short human-readable description of the failure.
    pub fn message(&self) -> (r: &'static str)
        ensures
            r@ == match self {
                NormalizeError::UrlParseError => "Url parse error."@,
                NormalizeError::InternalError => "Internal error."@,
                NormalizeError::UrlEncodeError => "Url encode error."@,
                NormalizeError::RegexParseError(_) => "Regex parse error."@,
            },
    {
        match self {
            NormalizeError::UrlParseError => "Url parse error.",
            NormalizeError::InternalError => "Internal error.",
            NormalizeError::UrlEncodeError => "Url encode error.",
            NormalizeError::RegexParseError(_) => "Regex parse error.",
        }
    }
}

} // verus!
