//! Group the rows of CSV data by one column and render the grouped layout.
//!
//! The library parses CSV bytes (through the `csv` crate), files every record
//! under the value of its grouping column, keeps the groups ordered by the
//! UTF-8 bytes of their names, and renders them as text: a `name:` header, a
//! blank line, one line per row without the grouping column, and a blank line.
//!
//! Columns are numbered from 1, as on the command line; [`ColumnNumber`]
//! cannot hold a zero.

pub mod column;
pub mod delimiter;
pub mod order;
pub mod groups;
pub mod layout;
pub mod records;
pub mod report;

pub use column::{ColumnNumber, ParseColumnError};
pub use delimiter::parse_delimiter;
pub use groups::{GroupedData, ProcessError, Row};
pub use report::{is_broken_pipe, ErrorCause};
