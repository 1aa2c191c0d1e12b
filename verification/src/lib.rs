//! A verified core for a cross-roster score summary tool.
//!
//! Documents are HTML exports that each hold one score table. The library
//! extracts `(name, score)` rows from such a table, canonicalizes the raw
//! names, drops administratively ignored identities, computes each file's
//! qualifying maximum, and aggregates per-identity standardized scores
//! across files into a ranked summary.
//!
//! Scores are exact fixed-point numbers counted in micro-points (one point
//! is `1_000_000` micro-units); a standardized score of `100` is
//! `100_000_000` micro-units. All arithmetic on them is integer arithmetic
//! with truncation toward zero, so every result is reproducible.
use vstd::prelude::*;

pub mod canon;
pub mod dom;
pub mod extract;
pub mod laws;
pub mod num;
pub mod store;
pub mod text;

verus! {

/// Why a document was rejected; a rejected document never enters the store.
#[derive(Clone, Copy, PartialEq, Eq, Debug)]
pub enum RosterError {
    /// The document's bytes are not valid UTF-8 text.
    Encoding,
    /// No roster table was found, or the table has no rows at all.
    Structure,
    /// A score cell holds no numeric token, or its value does not fit the
    /// fixed-point score range.
    Parse,
    /// No usable row was parsed, or every parsed row is ignored.
    EmptyResult,
}

/// A non-fatal observation made while a document was processed.
#[derive(Clone, Copy, PartialEq, Eq, Debug)]
pub enum Warning {
    /// A data row had fewer than three cells and was skipped; the field is
    /// the index of the row's node in the flattened document.
    RowTooShort(usize),
    /// A data row's name cell was empty after trimming and the row was
    /// skipped; the field is the index of the row's node.
    EmptyName(usize),
    /// The file's qualifying maximum is zero, so every standardized score
    /// of the file is zero by convention rather than a division result.
    DegenerateMax,
}

} // verus!
