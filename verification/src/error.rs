//! The errors of the engine. Every fallible function returns one of these;
//! none recovers silently.
use crate::tokenizer::{PDFObjectHeader, TokenizerState};
use vstd::prelude::*;

verus! {

/// What a token is, without what it holds.
#[derive(Clone, Copy, Debug, PartialEq, Eq, Structural)]
pub enum TokenKind {
    Comment,
    ObjectHeader,
    ObjectEnd,
    ObjectReference,
    DictionaryStart,
    DictionaryEnd,
    Name,
    ArrayStart,
    ArrayEnd,
    String,
    HexString,
    Boolean,
    Number,
    Null,
    StartXRef,
    XRefSectionBegin,
    XRefSubSectionHeader,
    XRefEntry,
    StreamBegin,
    StreamEnd,
    TrailerBegin,
    DocumentEnd,
}

/// What the parser asks of the next token.
#[derive(Clone, Copy, Debug, PartialEq, Eq, Structural)]
pub enum Expected {
    /// A token that starts a value.
    Value,
    /// A name that is a key, or the end of the dictionary.
    DictionaryKey,
    /// `endobj`.
    ObjectEnd,
    /// `endstream`.
    StreamEnd,
    /// The line `first count` of a cross-reference table.
    XRefSubSectionHeader,
    /// A token that may stand between objects.
    TopLevel,
}

/// What a value is, without what it holds.
#[derive(Clone, Copy, Debug, PartialEq, Eq, Structural)]
pub enum ValueKind {
    Dictionary,
    Boolean,
    Array,
    String,
    ObjectReference,
    Number,
    Name,
    Stream,
    Bytes,
    Null,
}

/// The dictionary entries and other places that the engine reads a value from.
#[derive(Clone, Copy, Debug, PartialEq, Eq, Structural)]
pub enum Place {
    /// `Length` of a stream dictionary.
    Length,
    /// `Filter` of a stream dictionary.
    Filter,
    /// `W` of a cross-reference stream.
    W,
    /// `Size` of a cross-reference stream.
    Size,
    /// `Root` of the trailer or of a cross-reference stream.
    Root,
    /// `Pages` of the catalog.
    Pages,
    /// `Kids` of a page-tree node.
    Kids,
    /// `Type` of a page-tree node.
    Type,
    /// `Contents` of a page.
    Contents,
    /// The value that follows the `trailer` keyword.
    Trailer,
    /// The object that `startxref` points to.
    XRefStream,
    /// A node of the page tree.
    PageTreeNode,
    /// An operand of a content-stream operator.
    Operand,
    /// A value that is asked for what it holds.
    Value,
}

/// What is wrong with a cross-reference table or stream.
#[derive(Clone, Copy, Debug, PartialEq, Eq, Structural)]
pub enum XRefFault {
    /// `W` has not exactly three widths.
    WidthCount,
    /// A field is wider than eight bytes.
    FieldTooWide,
    /// The three widths add up to zero.
    EmptyRecord,
    /// The payload is no whole number of records.
    PartialRecord,
    /// A record's type is none of 0, 1 and 2.
    UnknownType,
    /// A line of a classical table is not written as the format asks.
    BadEntry,
    /// Neither a trailer nor `startxref` leads to the catalog.
    NoRoot,
}

/// A call that the state of the callee does not allow.
#[derive(Clone, Copy, Debug, PartialEq, Eq, Structural)]
pub enum Violation {
    /// The tokenizer has no state left.
    EmptyStateStack,
    /// A token was asked for inside a stream body.
    InStreamBody,
    /// A token was asked for behind the end of the document.
    DocumentEnded,
    /// Stream bytes were asked for outside a stream body.
    NotInStreamBody,
    /// Table entries were asked for outside a cross-reference table.
    NotInXRefTable,
    /// A text object opened inside a text object.
    NestedTextObject,
    /// A text object closed where none was open.
    UnopenedTextObject,
    /// Text shown in a text object before any text matrix was set.
    NoTextMatrix,
    /// An operator that is none of text inside a text object.
    OperatorInTextObject,
    /// A node of the page tree reached a second time.
    PageTreeCycle,
    /// A length or count that does not fit this machine's integers.
    TooLarge,
    /// A token that was read without the cursor moving forward.
    Stalled,
    /// The text of a page was asked for that the document does not have.
    NoSuchPage,
}

/// Why the engine could not go on. An error is final: nothing is skipped
/// and nothing is repaired.
#[allow(inconsistent_fields)]
#[derive(Clone, Copy, Debug, PartialEq, Eq, Structural)]
pub enum PdfError {
    /// A byte that the grammar does not allow in `state` at `offset`.
    UnexpectedByte { offset: u64, state: TokenizerState, byte: u8 },
    /// The input ends at `offset`, where the grammar asks for more.
    UnexpectedEnd { offset: u64 },
    /// The token that ends at `offset` is not the one that the grammar asks for.
    UnexpectedToken { offset: u64, expected: Expected, got: TokenKind },
    /// The bytes at `offset` are no number, or one that does not fit.
    BadNumber { offset: u64 },
    /// The byte behind a backslash at `offset` starts no escape sequence.
    BadEscape { offset: u64, byte: u8 },
    /// A stream names a filter other than `FlateDecode`.
    UnknownFilter,
    /// The decompressor rejected a stream's bytes.
    DecompressionFailure,
    /// A dictionary lacks an entry.
    MissingDictEntry { key: Place },
    /// A value is of another kind than its place asks for.
    TypeMismatch { place: Place, expected: ValueKind, got: ValueKind },
    /// A reference to an object that the document does not define.
    UnresolvedReference { id: PDFObjectHeader },
    /// A malformed cross-reference table or stream.
    XRefFormat { cause: XRefFault },
    /// The bytes at `offset` of a content stream are no known operator.
    UnsupportedOperator { offset: u64 },
    /// A call that the state of the callee does not allow.
    StateViolation { cause: Violation },
}

} // verus!
