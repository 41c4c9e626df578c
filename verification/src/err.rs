//! The error taxonomy of the record pipeline.  Field-level type mismatches
//! are never errors — they degrade to default values — so the library
//! itself can only fail on an empty request or on a row whose quoting
//! cannot be tokenized.

use vstd::prelude::*;

verus! {

/// A fatal error of one extraction request.
#[derive(Clone, Copy, Debug, PartialEq, Eq, Structural)]
pub enum ParseError {
    /// The request named no documents at all.
    InvalidInput,
    /// A line held an unterminated quoted field, so the CSV tokenizer
    /// could not lex it.
    CsvParse,
}

/// A fatal error together with the index of the document that caused it.
#[derive(Clone, Copy, Debug, PartialEq, Eq, Structural)]
pub struct DocError {
    pub index: usize,
    pub error: ParseError,
}

} // verus!
