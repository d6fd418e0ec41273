//! Cell types and typed, validated cells.

use vstd::prelude::*;
use vstd::string::StringExecFns;
use crate::text::{dbl_norm, is_dbl_text, is_i64_text, check_i64_text, normalize_dbl_text};

verus! {

/// The kind of value a cell or column holds. The variant names double as
/// the labels used in rendered headers.
#[derive(Debug, Clone, Copy, PartialEq, Eq, Structural)]
pub enum CellType {
    Str,
    Int,
    Dbl,
    Date,
}

impl CellType {
    /// The textual label of this type, as rendered in headers.
    pub open spec fn spec_label(self) -> Seq<char> {
        match self {
            CellType::Str => "Str"@,
            CellType::Int => "Int"@,
            CellType::Dbl => "Dbl"@,
            CellType::Date => "Date"@,
        }
    }

    /// Returns the textual label of this type.
    pub fn label(&self) -> (r: String)
        ensures
            r@ == self.spec_label(),
    {
        match self {
            CellType::Str => String::from_str("Str"),
            CellType::Int => String::from_str("Int"),
            CellType::Dbl => String::from_str("Dbl"),
            CellType::Date => String::from_str("Date"),
        }
    }
}

/// Whether raw text satisfies a cell type's parse rule: anything for `Str`
/// and `Date`, signed 64-bit integer text for `Int`, plain decimal
/// floating-point text for `Dbl`.
pub open spec fn valid_cell_text(s: Seq<char>, t: CellType) -> bool {
    match t {
        CellType::Str => true,
        CellType::Int => is_i64_text(s),
        CellType::Dbl => is_dbl_text(s),
        CellType::Date => true,
    }
}

/// The stored text of a cell built from raw text `s`: verbatim for every
/// type but `Dbl`, whose value is re-rendered with exactly three digits
/// after the decimal point.
pub open spec fn norm_cell_text(s: Seq<char>, t: CellType) -> Seq<char> {
    match t {
        CellType::Dbl => dbl_norm(s),
        _ => s,
    }
}

/// A single typed value, validated and normalized at construction.
#[derive(Debug)]
pub struct Cell {
    pub value: String,
    pub cell_type: CellType,
}

impl Cell {
    /// Builds a cell from raw text, or reports that the text does not
    /// satisfy the type's parse rule; no cell at all is produced then.
    pub fn try_new(value: &str, cell_type: CellType) -> (r: Option<Cell>)
        ensures
            r is Some <==> valid_cell_text(value@, cell_type),
            r matches Some(c) ==> c.value@ == norm_cell_text(value@, cell_type) && c.cell_type
                == cell_type,
    {
        match cell_type {
            CellType::Str => Some(
                Cell { value: String::from_str(value), cell_type },
            ),
            CellType::Int => {
                if check_i64_text(value) {
                    Some(Cell { value: String::from_str(value), cell_type })
                } else {
                    None
                }
            },
            CellType::Dbl => {
                match normalize_dbl_text(value) {
                    Some(v) => Some(Cell { value: v, cell_type }),
                    None => None,
                }
            },
            CellType::Date => Some(
                Cell { value: String::from_str(value), cell_type },
            ),
        }
    }

    /// Builds a cell from raw text that satisfies the type's parse rule.
    /// An unverified caller that passes invalid text sees a panic instead
    /// of a cell.
    pub fn new(value: &str, cell_type: CellType) -> (c: Cell)
        requires
            valid_cell_text(value@, cell_type),
        ensures
            c.value@ == norm_cell_text(value@, cell_type),
            c.cell_type == cell_type,
    {
        match Cell::try_new(value, cell_type) {
            Some(c) => c,
            None => vstd::pervasive::unreached(),
        }
    }
}

} // verus!
