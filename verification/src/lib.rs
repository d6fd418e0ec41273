//! An in-memory columnar table with typed, validated cells.
//!
//! A caller declares a list of named, typed columns, builds rows of cells
//! (each cell validated and normalized against its declared type at
//! construction), appends them row by row, and renders the whole table as a
//! bar-delimited text grid.

pub mod cell;
pub mod table;
pub mod text;
