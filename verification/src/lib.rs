//! A line-oriented configuration file parser.
//!
//! A configuration file holds one `option = value` assignment per line,
//! optionally followed by a delimiter-separated attribute list.  The
//! library tokenizes each line and aggregates the results into an ordered
//! list of records, all against contracts stated over sequences of
//! characters.

pub mod line;
pub mod records;
pub mod text;

pub use line::parse_line;
pub use records::get_ver;
pub use records::parse_lines;
pub use records::OptionProperties;
pub use records::Value;
