//! Converts tabular data between two file encodings: delimited text and a
//! compressed, self-describing columnar binary container.  A conversion
//! resolves each path's extension to a format, reads the source fully into
//! an in-memory table (inferring column types from text, or taking them
//! from the embedded schema), optionally sorts all rows by every column in
//! table order, and writes the table in the target format.
use vstd::prelude::*;

pub mod binary;
pub mod compress;
pub mod convert;
pub mod csv;
pub mod formats;
pub mod laws;
pub mod scalar;
pub mod sorting;
pub mod table;
pub mod text;

verus! {

pub use crate::formats::{Format, ConvertError};
pub use crate::table::{Table, Column, Value, ColType};

} // verus!
