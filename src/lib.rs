//! Layout and navigation for a terminal table of tagged records: fitting text
//! into an exact number of cells, rendering multi-valued fields, resolving
//! column widths, moving a cursor, and sorting records by a column.
pub mod config;
pub mod consts;
pub mod cursor;
pub mod data;
pub mod figments;
pub mod fit;
pub mod model;
pub mod text;
pub mod width;
