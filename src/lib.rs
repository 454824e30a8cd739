//! An in-memory columnar table engine: named, typed, chunked columns with
//! null tracking, and relational operators over tables of them (selection,
//! filtering, slicing, stacking, grouping with aggregation, joins, melting
//! and per-group transforms).

pub mod agg;
pub mod apply;
pub mod cell;
pub mod compute;
pub mod error;
pub mod frame;
pub mod groupby;
pub mod join;
pub mod laws;
pub mod resample;
pub mod reshape;
pub mod rows;
pub mod series;
pub mod sort;
mod text;
