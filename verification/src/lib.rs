//! A pivot-table model: rows of text fields grouped by competition, with two
//! collapsible column groups (winner and runner-up) whose members are the
//! distinct team names found in the data.

pub mod engine;
pub mod grouping;
pub mod layout;
pub mod row;
pub mod text;

pub use engine::{PivotEngine, PivotState};
pub use layout::VisCol;
pub use row::DataRow;
pub use text::{compare_text, parse_i64, Order};
