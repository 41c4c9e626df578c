//! Extraction of typed inventory records from semi-structured report text.
//!
//! Report documents embed one or more ad-hoc tables between an "Item list"
//! start marker and a "Total" end marker, written with a non-standard quoting
//! convention.  This crate locates those regions, normalizes each data line,
//! re-parses the normalized block as CSV, and coerces every field leniently
//! into a fully populated record.  A filtered subset of the records can be
//! re-serialized as a strict CSV document.

pub mod chars;
pub mod coerce;
pub mod decimal;
pub mod err;
pub mod extract;
pub mod laws;
pub mod manifest;
pub mod ops;
pub mod tokenizer;
