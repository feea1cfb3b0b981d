//! Errors of loading and decoding.
//!
//! `ParseError` (malformed text) aborts a load with no partial result;
//! `SchemaError` (a required field missing, or a field of the wrong shape)
//! aborts decoding a document; `FormatError` (a geometry leaf string that
//! does not match its compact grammar) aborts decoding that leaf. None is
//! recoverable; all propagate to the top-level load or decode call.

use vstd::prelude::*;

use crate::geom::FormatError;
use crate::parse::ParseError;

verus! {

/// The shape of a value, for error reports.
#[derive(Debug, Clone, Copy, PartialEq, Eq, Structural)]
pub enum ValueKind {
    Dict,
    Arr,
    Str,
    Int,
    Float,
    /// A required key that is not present at all.
    Missing,
}

/// A typed-decoding failure: the field path (struct and field name), what
/// shape was expected there, and what was found.
#[derive(Debug, Clone, PartialEq)]
pub struct SchemaError {
    pub path: String,
    pub expected: ValueKind,
    pub actual: ValueKind,
}

/// Any failure of loading or decoding a document.
#[derive(Debug, PartialEq)]
pub enum Error {
    Parse(ParseError),
    Schema(SchemaError),
    Format(FormatError),
}

} // verus!
