//! Binary JSON encoding (JSONB): a one-pass parser that turns JSON text into the encoding, and
//! the key paths that address values inside a document.

pub mod ascii;
pub mod bytes;
pub mod canonical;
pub mod dialects;
pub mod encoding;
pub mod error;
pub mod escape;
pub mod extent;
pub mod floats;
pub mod grammar;
pub mod int256;
pub mod keypath;
pub mod keypath_parser;
pub mod laws;
pub mod layout;
pub mod lists;
pub mod lossless;
pub mod moved;
pub mod number;
pub mod numerals;
pub mod order;
pub mod owned;
pub mod parser_direct;
pub mod paths;
pub mod plain;
pub mod refusals;
pub mod scan;
pub mod sort;
pub mod spelling;
pub mod strings;
pub mod text;
pub mod value;
pub mod words;
pub mod writer;
