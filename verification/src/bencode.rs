//! The bencode wire format: decoded values, the grammar, and the decoder.

pub mod encoding;
pub mod error;
pub mod grammar;
pub mod laws;
pub mod parser;
pub mod torrent;
pub mod value;

pub use error::ParseError;
pub use grammar::DecodeFailure;
pub use parser::parse;
pub use parser::parse_prefix;
pub use torrent::extract_files;
pub use torrent::torrent_files;
pub use torrent::ExtractFailure;
pub use value::BValue;
pub use value::Value;
