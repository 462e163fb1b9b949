//! Conversion between separator-delimited lines and HTML table markup.
//!
//! The generator turns records into a `<table>` document; the parser
//! recovers records from the first table region of arbitrary text. Both are
//! stated over character sequences: `generate::generated` is the document
//! written for a list of lines, `parse::parsed` what is read back from text.

pub mod text;
pub mod markup;
pub mod generate;
pub mod parse;
pub mod laws;
pub mod round_trip;
pub mod lines;
