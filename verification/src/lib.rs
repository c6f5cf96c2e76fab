//! Page selection for PDF documents.
//!
//! [`range`] parses a page-range expression such as `1-3,5,7-9` into a list
//! of logical page numbers. [`resolve`] maps logical page numbers onto the
//! page identifiers of a document and works out which pages to delete.
//! [`document`] applies that to a `lopdf::Document` in memory. [`request`]
//! holds what the user asked for, and [`text`] the handling of characters
//! that the parser rests on.

pub mod document;
pub mod range;
pub mod request;
pub mod resolve;
pub mod text;

pub use document::resolve_and_apply;
pub use range::{parse_page_range, parse_page_range_bounded, ParseError};
pub use request::{ExtractionRequest, RequestError};
pub use resolve::{resolve, ResolveError};
