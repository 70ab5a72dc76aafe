//! Parsing and writing of the PO text format.

pub mod escape;
pub mod po_file_parser;
pub mod po_file_writer;

pub use escape::{escape, lemma_escape_round_trip, unescape, UnescapeError};
pub use po_file_parser::{lemma_metadata_comes_first, parse_text, POMessage, POMessageField, POParseError, POParseOptions, POParserState};
pub use po_file_writer::{lemma_field_width_boundary, lemma_field_read_back, write_field, write_sort_by, wrap};
