//! Line-oriented paging of text files for readers with a bounded context.
//!
//! A text is taken apart into lines. A request selects lines, either by a list
//! of ranges or by the line to read on from, and may set a budget of bytes.
//! The page that answers it never cuts through a line where it can help it,
//! never through a character, and where it had to stop early it names the
//! line to go on from, as the anchor `#more:N`.

pub mod anchor;
pub mod decimal;
pub mod document;
pub mod encoding;
pub mod extract;
pub mod paginate;
pub mod range;
pub mod search;
pub mod text;
pub mod truncate;

pub use anchor::{format_marker, parse_more_anchor, split_anchor};
pub use document::SourceDocument;
pub use extract::extract_lines;
pub use paginate::{paginate, PaginatedResult};
pub use range::{parse_range, parse_ranges, RangeSpec};
pub use truncate::truncate_to_line_boundary;
