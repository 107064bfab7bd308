//! A PDF reading engine: a byte-level tokenizer, an object-graph parser with
//! cross-reference decoding, and a content-stream interpreter that extracts
//! positioned text.
//!
//! The functions are verified against a mathematical model of the file
//! format: the input is a `Seq<u8>`, a position in it is an `int`, and each
//! lexical or syntactic layer is a spec function over those. Two functions
//! are trusted instead: the one that calls the decompressor and the one that
//! calls the regular-expression engine. What they return has a name in the
//! model, and nothing is claimed of it but that it depends on their
//! arguments alone.
pub mod content_stream_lexer;
pub mod cursor;
pub mod error;
pub mod lexer;
pub mod number;
pub mod page;
pub mod pdf;
pub mod reader;
pub mod scan;
pub mod strings;
pub mod text;
pub mod tokenizer;
pub mod tree;
pub mod xref;
