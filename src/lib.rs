//! Lookup over a sorted, line-oriented lexical index: a parser that turns
//! index lines into per-part-of-speech records, and a byte-offset binary
//! search that finds a headword's line in the raw file contents.

pub mod bytes;
pub mod index;
pub mod pointer;
pub mod record;
pub mod search;
pub mod word_map;

pub use index::{Index, IndexData, LemmaIndices};
pub use pointer::PointerSymbol;
pub use record::{parse_line, ParseError, PartOfSpeech};
pub use search::{get_line, line_bounds, search, MAX_LINE_LENGTH};
