//! A page of a document: its object and its content stream.
use crate::content_stream_lexer::{content_tokens, parse, OperandView};
use crate::error::{PdfError, Place, ValueKind};
use crate::pdf::{kind_of, stream_data, ObjectView, PDFObject, PDFValue, StreamView, ValueView};
use crate::text::{get_text_objects, objects_result, text_objects, RunView, TextObjectContent};
use vstd::prelude::*;

verus! {

/// A page: the object of the page and the object of its content stream.
/// Where the page names several content streams, the content stream is the
/// one that they make together.
#[derive(Debug, PartialEq)]
pub struct PDFPage {
    pub object: PDFObject,
    pub contents: PDFObject,
}

/// A page as a mathematical value.
pub struct PageView {
    pub object: ObjectView,
    pub contents: ObjectView,
}

impl View for PDFPage {
    type V = PageView;

    open spec fn view(&self) -> PageView {
        PageView { object: self.object@, contents: self.contents@ }
    }
}

/// The text objects of a content stream with the decoded bytes `data`.
pub open spec fn content_text(data: Seq<u8>) -> Result<Seq<Seq<RunView>>, PdfError> {
    match content_tokens(data, 0, Seq::<OperandView>::empty()) {
        Ok(tokens) => text_objects(tokens),
        Err(e) => Err(e),
    }
}

/// The text objects of a page: those of its content stream, decoded.
pub open spec fn page_text(page: PageView) -> Result<Seq<Seq<RunView>>, PdfError> {
    match page.contents.value {
        ValueView::Stream(dictionary, bytes) => match stream_data(StreamView { dictionary, bytes }) {
            Ok(data) => content_text(data),
            Err(e) => Err(e),
        },
        other => Err(
            PdfError::TypeMismatch {
                place: Place::Contents,
                expected: ValueKind::Stream,
                got: kind_of(other),
            },
        ),
    }
}

/// The text objects of a content stream, given its decoded bytes.
pub fn text_of_content(data: &[u8]) -> (r: Result<Vec<TextObjectContent>, PdfError>)
    ensures
        objects_result(r) == content_text(data@),
{
    match parse(data) {
        Ok(tokens) => get_text_objects(&tokens),
        Err(e) => Err(e),
    }
}

impl PDFPage {
    /// The text objects of the page, each with the strings that it shows and
    /// where it shows them.
    pub fn get_text(&self) -> (r: Result<Vec<TextObjectContent>, PdfError>)
        ensures
            objects_result(r) == page_text(self@),
    {
        match &self.contents.value {
            PDFValue::Stream(stream) => match stream.decompress() {
                Ok(data) => text_of_content(data.as_slice()),
                Err(e) => Err(e),
            },
            other => Err(
                PdfError::TypeMismatch {
                    place: Place::Contents,
                    expected: ValueKind::Stream,
                    got: other.kind(),
                },
            ),
        }
    }

    /// A copy of the page.
    pub fn duplicate(&self) -> (r: PDFPage)
        ensures
            r@ == self@,
    {
        PDFPage { object: self.object.duplicate(), contents: self.contents.duplicate() }
    }
}

} // verus!
