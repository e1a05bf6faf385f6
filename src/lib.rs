//! Streaming parser for comma/quote-delimited technology log records.

pub mod scanner;
pub mod text;
pub mod types;
pub mod date;
pub mod record;
pub mod stream;
pub mod filters;
pub mod addin;
pub mod chunking;
pub mod quoting;

pub use record::{parse_record, Event};
pub use scanner::{EndError, ParseError, Parser};
pub use stream::parse_buffer;
pub use types::LogStr;
