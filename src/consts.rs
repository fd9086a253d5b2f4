//! Glyphs used to draw the table.
use vstd::prelude::*;

verus! {

/// Printed where a value was cut short.
pub const ELLIPSIS_STR: &'static str = "⋯";

/// Printed between the values of a multi-valued field.
pub const FIELD_SEP_STR: &'static str = "|";

/// Fills a cell whose record has no value for the column.
pub const MISSING_FILL: &'static str = "x";

/// Printed between two columns.
pub const COLUMN_SEP: &'static str = " │ ";

/// Printed between two columns on the line under the headers.
pub const COLUMN_HEADER_SEP: &'static str = "═╪═";

/// Fills the line under the headers.
pub const COLUMN_HEADER_BAR: &'static str = "═";

} // verus!
