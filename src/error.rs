//! The errors of the table operators.

use vstd::prelude::*;

use crate::cell::Cell;

verus! {

/// The errors that the table operators report. None of them aborts: each is
/// handed back to the caller as a value.
#[derive(Debug)]
pub enum TableError {
    /// A column name was looked up and is not in the table.
    ColumnNotFound(String),
    /// A column or mask does not have the length that the operation needs.
    LengthMismatch,
    /// Two tables do not have the same column names and types in the same order.
    SchemaMismatch,
    /// List-valued cells that must line up do not have the same lengths.
    ShapeMismatch,
    /// A column or value does not have the type that the operation needs.
    TypeMismatch,
    /// A row index lies past the end of the table.
    IndexOutOfBounds,
    /// A parameter lies outside its allowed range, or a mode name is unknown.
    InvalidArgument,
    /// An aggregation name is not one of the known reductions.
    UnknownAggregation,
    /// A per-group transform failed: the key of that group and its error.
    CallbackFailed(Vec<Cell>, Box<TableError>),
}

} // verus!
