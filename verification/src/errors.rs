//! The ways a table computation can fail.
use vstd::prelude::*;

verus! {

/// Every fatal condition of parsing, column resolution, operator
/// selection and column appending. Unparsable numeric cells are not
/// errors: they degrade to the not-a-number sentinel downstream.
#[derive(Debug)]
pub enum CalcError {
    /// The input ended before a header line was read.
    MalformedInput,
    /// A data row did not have exactly one field per header.
    RowWidthMismatch { expected: usize, found: usize },
    /// A column selector is not a valid regular expression.
    InvalidPattern { pattern: String, message: String },
    /// A column selector matched no header.
    ColumnNotFound { pattern: String },
    /// A column selector matched more than one header; every matching
    /// column is listed with its index so the caller can narrow the
    /// pattern.
    AmbiguousColumn { pattern: String, candidates: Vec<(usize, String)> },
    /// A configured operator symbol outside `+ - * /`.
    UnsupportedOperator { op: String },
    /// A column to append did not have exactly one value per row.
    RowCountMismatch { expected: usize, found: usize },
}

} // verus!
