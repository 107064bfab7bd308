//! The parser: values from tokens, indirect objects from values, and the
//! document from its objects.
use crate::error::{Expected, PdfError, Place, ValueKind, Violation};
use crate::lexer::lemma_lex_advances;
use crate::pdf::{
    empty_document, kind_of, values_view, ObjectView, PDFDictionary, PDFObject, PDFStream,
    PDFValue, PdfView, ValueView, PDF,
};
use crate::tokenizer::{
    lifted, matches_pattern, table_step, version_pattern, PDFTokenPatterns, XRefEntry,
    XRefSection, XRefSectionView, XRefStreamEntry,
};
use crate::tokenizer::{
    next_step, peek_step, stream_step, token_kind, PDFObjectHeader, PDFToken, PDFTokenize,
    Stepped, TokenView, TokenizerModel,
};
use vstd::prelude::*;

verus! {

/// Whether the cursor has moved forward, inside the same input.
pub open spec fn progressed(before: TokenizerModel, after: TokenizerModel) -> bool {
    after.input == before.input && before.pos < after.pos <= before.input.len()
}

/// The value that a token is by itself.
pub open spec fn scalar_value(token: TokenView) -> Option<ValueView> {
    match token {
        TokenView::Name(name) => Some(ValueView::Name(name)),
        TokenView::String(bytes) => Some(ValueView::String(bytes)),
        TokenView::HexString(bytes) => Some(ValueView::Bytes(bytes)),
        TokenView::Number(value) => Some(ValueView::Number(value)),
        TokenView::Boolean(value) => Some(ValueView::Boolean(value)),
        TokenView::ObjectReference(header) => Some(ValueView::ObjectReference(header)),
        TokenView::Null => Some(ValueView::Null),
        _ => None,
    }
}

pub open spec fn key_length() -> Seq<u8> {
    seq!['L' as u8, 'e' as u8, 'n' as u8, 'g' as u8, 't' as u8, 'h' as u8]
}

/// The length that a stream dictionary states: the number under `Length`,
/// rounded towards zero.
pub open spec fn stated_length(dictionary: Map<Seq<u8>, ValueView>) -> Result<u64, PdfError> {
    if !dictionary.dom().contains(key_length()) {
        Err(PdfError::MissingDictEntry { key: Place::Length })
    } else {
        match dictionary[key_length()] {
            ValueView::Number(n) => Ok(
                if n.negative {
                    0
                } else {
                    n.truncated() as u64
                },
            ),
            other => Err(
                PdfError::TypeMismatch {
                    place: Place::Length,
                    expected: ValueKind::Number,
                    got: kind_of(other),
                },
            ),
        }
    }
}

/// A failure that leaves the tokenizer at `after`.
pub open spec fn failed<T>(e: PdfError, after: TokenizerModel) -> Stepped<T> {
    Stepped { result: Err(e), after }
}

/// The error for a token that the parser does not ask for.
pub open spec fn unexpected_token(after: TokenizerModel, expected: Expected, token: TokenView) -> PdfError {
    PdfError::UnexpectedToken { offset: after.pos as u64, expected, got: token_kind(token) }
}

/// The stream whose dictionary was read and whose `stream` keyword was
/// passed: as many bytes as the dictionary states under `Length`, and
/// `endstream` behind them.
pub open spec fn parse_stream_spec(m: TokenizerModel, dictionary: Map<Seq<u8>, ValueView>) -> Stepped<
    ValueView,
> {
    match stated_length(dictionary) {
        Err(e) => failed(e, m),
        Ok(length) => if length > usize::MAX {
            failed(PdfError::StateViolation { cause: Violation::TooLarge }, m)
        } else {
            let body = stream_step(m, length as nat);
            match body.result {
                Err(e) => failed(e, body.after),
                Ok(bytes) => {
                    let end = next_step(body.after);
                    match end.result {
                        Err(e) => failed(e, end.after),
                        Ok(TokenView::StreamEnd) => Stepped {
                            result: Ok(ValueView::Stream(dictionary, bytes)),
                            after: end.after,
                        },
                        Ok(other) => failed(
                            unexpected_token(end.after, Expected::StreamEnd, other),
                            end.after,
                        ),
                    }
                },
            }
        },
    }
}

/// The value at the cursor. An array and a dictionary hold values in turn;
/// a dictionary that the `stream` keyword follows is the dictionary of a
/// stream; every other value is one token.
pub open spec fn parse_value_spec(m: TokenizerModel) -> Stepped<ValueView>
    decreases m.input.len() - m.pos, 0int,
{
    let first = next_step(m);
    match first.result {
        Err(e) => failed(e, first.after),
        Ok(token) => if !progressed(m, first.after) {
            failed(PdfError::StateViolation { cause: Violation::Stalled }, first.after)
        } else {
            match token {
                TokenView::ArrayStart => {
                    let items = parse_array_from(first.after, Seq::empty());
                    match items.result {
                        Ok(values) => Stepped {
                            result: Ok(ValueView::Array(values)),
                            after: items.after,
                        },
                        Err(e) => failed(e, items.after),
                    }
                },
                TokenView::DictionaryStart => {
                    let entries = parse_dictionary_from(first.after, Map::empty());
                    match entries.result {
                        Ok(dictionary) => if peek_step(entries.after).result == Ok::<
                            TokenView,
                            PdfError,
                        >(TokenView::StreamBegin) {
                            parse_stream_spec(next_step(entries.after).after, dictionary)
                        } else {
                            Stepped {
                                result: Ok(ValueView::Dictionary(dictionary)),
                                after: entries.after,
                            }
                        },
                        Err(e) => failed(e, entries.after),
                    }
                },
                other => match scalar_value(other) {
                    Some(value) => Stepped { result: Ok(value), after: first.after },
                    None => failed(
                        unexpected_token(first.after, Expected::Value, other),
                        first.after,
                    ),
                },
            }
        },
    }
}

/// The values of an array from the cursor on, up to its `]`, behind the
/// values `done` that were read before.
pub open spec fn parse_array_from(m: TokenizerModel, done: Seq<ValueView>) -> Stepped<
    Seq<ValueView>,
>
    decreases m.input.len() - m.pos, 1int,
{
    match peek_step(m).result {
        Err(e) => failed(e, m),
        Ok(TokenView::ArrayEnd) => Stepped { result: Ok(done), after: next_step(m).after },
        Ok(_) => {
            let item = parse_value_spec(m);
            match item.result {
                Ok(value) => if progressed(m, item.after) {
                    parse_array_from(item.after, done.push(value))
                } else {
                    failed(PdfError::StateViolation { cause: Violation::Stalled }, item.after)
                },
                Err(e) => failed(e, item.after),
            }
        },
    }
}

/// The entries of a dictionary from the cursor on, up to its `>>`, put into
/// the entries `done` that were read before.
pub open spec fn parse_dictionary_from(m: TokenizerModel, done: Map<Seq<u8>, ValueView>) -> Stepped<
    Map<Seq<u8>, ValueView>,
>
    decreases m.input.len() - m.pos, 1int,
{
    let first = next_step(m);
    match first.result {
        Err(e) => failed(e, first.after),
        Ok(TokenView::DictionaryEnd) => Stepped { result: Ok(done), after: first.after },
        Ok(TokenView::Name(key)) => if !progressed(m, first.after) {
            failed(PdfError::StateViolation { cause: Violation::Stalled }, first.after)
        } else {
            let item = parse_value_spec(first.after);
            match item.result {
                Ok(value) => if progressed(first.after, item.after) {
                    parse_dictionary_from(item.after, done.insert(key, value))
                } else {
                    failed(PdfError::StateViolation { cause: Violation::Stalled }, item.after)
                },
                Err(e) => failed(e, item.after),
            }
        },
        Ok(other) => failed(
            unexpected_token(first.after, Expected::DictionaryKey, other),
            first.after,
        ),
    }
}

/// A step that gives a token moves the cursor forward.
pub proof fn lemma_step_progresses(m: TokenizerModel)
    ensures
        next_step(m).after.input == m.input,
        next_step(m).result is Ok ==> progressed(m, next_step(m).after),
        next_step(m).result is Err ==> next_step(m).after == m,
{
    if m.stack.len() > 0 {
        lemma_lex_advances(m.input, m.pos as int, m.stack.last());
    }
}

/// A stream that is read ends behind where it starts.
pub proof fn lemma_stream_progresses(m: TokenizerModel, dictionary: Map<Seq<u8>, ValueView>)
    ensures
        parse_stream_spec(m, dictionary).after.input == m.input,
        m.pos <= parse_stream_spec(m, dictionary).after.pos,
        parse_stream_spec(m, dictionary).result is Ok ==> m.pos < parse_stream_spec(
            m,
            dictionary,
        ).after.pos <= m.input.len(),
{
    match stated_length(dictionary) {
        Ok(length) => {
            if length <= usize::MAX {
                let body = stream_step(m, length as nat);
                lemma_step_progresses(body.after);
            }
        },
        Err(e) => {},
    }
}

/// A value that is read ends behind where it starts; a failure leaves the
/// cursor at or behind where it was.
pub proof fn lemma_value_progresses(m: TokenizerModel)
    ensures
        parse_value_spec(m).after.input == m.input,
        m.pos <= parse_value_spec(m).after.pos,
        parse_value_spec(m).result is Ok ==> progressed(m, parse_value_spec(m).after),
    decreases m.input.len() - m.pos, 0int,
{
    let first = next_step(m);
    lemma_step_progresses(m);
    match first.result {
        Ok(token) => {
            match token {
                TokenView::ArrayStart => {
                    lemma_array_progresses(first.after, Seq::empty());
                },
                TokenView::DictionaryStart => {
                    lemma_dictionary_progresses(first.after, Map::empty());
                    let entries = parse_dictionary_from(first.after, Map::empty());
                    match entries.result {
                        Ok(dictionary) => {
                            lemma_step_progresses(entries.after);
                            if peek_step(entries.after).result == Ok::<TokenView, PdfError>(
                                TokenView::StreamBegin,
                            ) {
                                lemma_stream_progresses(
                                    next_step(entries.after).after,
                                    dictionary,
                                );
                            }
                        },
                        Err(e) => {},
                    }
                },
                _ => {},
            }
        },
        Err(e) => {},
    }
}

pub proof fn lemma_array_progresses(m: TokenizerModel, done: Seq<ValueView>)
    ensures
        parse_array_from(m, done).after.input == m.input,
        m.pos <= parse_array_from(m, done).after.pos,
        parse_array_from(m, done).result is Ok ==> progressed(m, parse_array_from(m, done).after),
    decreases m.input.len() - m.pos, 1int,
{
    lemma_step_progresses(m);
    match peek_step(m).result {
        Ok(TokenView::ArrayEnd) => {},
        Ok(_) => {
            lemma_value_progresses(m);
            let item = parse_value_spec(m);
            match item.result {
                Ok(value) => {
                    lemma_array_progresses(item.after, done.push(value));
                },
                Err(e) => {},
            }
        },
        Err(e) => {},
    }
}

pub proof fn lemma_dictionary_progresses(m: TokenizerModel, done: Map<Seq<u8>, ValueView>)
    ensures
        parse_dictionary_from(m, done).after.input == m.input,
        m.pos <= parse_dictionary_from(m, done).after.pos,
        parse_dictionary_from(m, done).result is Ok ==> progressed(
            m,
            parse_dictionary_from(m, done).after,
        ),
    decreases m.input.len() - m.pos, 1int,
{
    let first = next_step(m);
    lemma_step_progresses(m);
    match first.result {
        Ok(TokenView::Name(key)) => {
            lemma_value_progresses(first.after);
            let item = parse_value_spec(first.after);
            match item.result {
                Ok(value) => {
                    lemma_dictionary_progresses(item.after, done.insert(key, value));
                },
                Err(e) => {},
            }
        },
        _ => {},
    }
}

/// The parser of a document over a source of tokens.
pub struct Reader<T: PDFTokenize> {
    pub pdf: PDF,
    pub tokenizer: T,
}

pub open spec fn value_result(r: Result<PDFValue, PdfError>) -> Result<ValueView, PdfError> {
    match r {
        Ok(value) => Ok(value@),
        Err(e) => Err(e),
    }
}

pub open spec fn dictionary_result(r: Result<PDFDictionary, PdfError>) -> Result<
    Map<Seq<u8>, ValueView>,
    PdfError,
> {
    match r {
        Ok(dictionary) => Ok(dictionary@),
        Err(e) => Err(e),
    }
}

/// The array that the values of a parse make.
pub open spec fn array_result(r: Result<Seq<ValueView>, PdfError>) -> Result<ValueView, PdfError> {
    match r {
        Ok(values) => Ok(ValueView::Array(values)),
        Err(e) => Err(e),
    }
}

/// The length that a stream dictionary states.
pub fn stream_length(dictionary: &PDFDictionary) -> (r: Result<u64, PdfError>)
    ensures
        r == stated_length(dictionary@),
{
    let key: [u8; 6] = ['L' as u8, 'e' as u8, 'n' as u8, 'g' as u8, 't' as u8, 'h' as u8];
    assert(key@ =~= key_length());
    match dictionary.get(&key) {
        None => Err(PdfError::MissingDictEntry { key: Place::Length }),
        Some(value) => match value {
            PDFValue::Number(n) => Ok(n.to_u64()),
            other => Err(
                PdfError::TypeMismatch {
                    place: Place::Length,
                    expected: ValueKind::Number,
                    got: other.kind(),
                },
            ),
        },
    }
}

/// The value that a token is by itself.
pub fn scalar_of(token: PDFToken) -> (r: Result<PDFValue, PDFToken>)
    ensures
        match r {
            Ok(value) => scalar_value(token@) == Some(value@),
            Err(other) => scalar_value(token@) is None && other == token,
        },
{
    match token {
        PDFToken::Name(name) => Ok(PDFValue::Name(name)),
        PDFToken::String(bytes) => Ok(PDFValue::String(bytes)),
        PDFToken::HexString(bytes) => Ok(PDFValue::Bytes(bytes)),
        PDFToken::Number(value) => Ok(PDFValue::Number(value)),
        PDFToken::Boolean(value) => Ok(PDFValue::Boolean(value)),
        PDFToken::ObjectReference(header) => Ok(PDFValue::ObjectReference(header)),
        PDFToken::Null => Ok(PDFValue::Null),
        other => Err(other),
    }
}

impl<T: PDFTokenize> Reader<T> {
    /// A reader that has read nothing yet.
    pub fn new(tokenizer: T) -> (r: Self)
        ensures
            r.tokenizer == tokenizer,
            r.pdf@ == empty_document(),
    {
        Reader { pdf: PDF::default(), tokenizer }
    }

    /// Reads the body of the stream whose dictionary is `stream_dictionary`
    /// and whose `stream` keyword was passed.
    pub fn parse_stream(&mut self, stream_dictionary: PDFDictionary) -> (r: Result<
        PDFValue,
        PdfError,
    >)
        ensures
            value_result(r) == parse_stream_spec(
                old(self).tokenizer.model(),
                stream_dictionary@,
            ).result,
            final(self).tokenizer.model() == parse_stream_spec(
                old(self).tokenizer.model(),
                stream_dictionary@,
            ).after,
            final(self).pdf == old(self).pdf,
    {
        let length: u64 = match stream_length(&stream_dictionary) {
            Ok(n) => n,
            Err(e) => {
                return Err(e);
            },
        };
        if length > usize::MAX as u64 {
            return Err(PdfError::StateViolation { cause: Violation::TooLarge });
        }
        let bytes: Vec<u8> = match self.tokenizer.get_stream(length as usize) {
            Ok(bytes) => bytes,
            Err(e) => {
                return Err(e);
            },
        };
        match self.tokenizer.next() {
            Ok(PDFToken::StreamEnd) => Ok(
                PDFValue::Stream(PDFStream { dictionary: stream_dictionary, bytes }),
            ),
            Ok(other) => {
                let offset: u64 = self.tokenizer.get_offset();
                Err(
                    PdfError::UnexpectedToken {
                        offset,
                        expected: Expected::StreamEnd,
                        got: other.kind(),
                    },
                )
            },
            Err(e) => Err(e),
        }
    }

    /// Reads the value at the cursor.
    pub fn parse_value(&mut self) -> (r: Result<PDFValue, PdfError>)
        ensures
            value_result(r) == parse_value_spec(old(self).tokenizer.model()).result,
            final(self).tokenizer.model() == parse_value_spec(old(self).tokenizer.model()).after,
            final(self).pdf == old(self).pdf,
        decreases old(self).tokenizer.model().input.len() - old(self).tokenizer.model().pos, 0int,
    {
        let ghost start = self.tokenizer.model();
        proof {
            lemma_step_progresses(start);
        }
        let token: PDFToken = match self.tokenizer.next() {
            Ok(token) => token,
            Err(e) => {
                return Err(e);
            },
        };
        match token {
            PDFToken::ArrayStart => self.parse_array(),
            PDFToken::DictionaryStart => {
                let dictionary: PDFDictionary = match self.parse_dictionary() {
                    Ok(dictionary) => dictionary,
                    Err(e) => {
                        return Err(e);
                    },
                };
                match self.tokenizer.peak_next() {
                    Ok(PDFToken::StreamBegin) => {
                        let _ = self.tokenizer.next();
                        self.parse_stream(dictionary)
                    },
                    _ => Ok(PDFValue::Dictionary(dictionary)),
                }
            },
            other => match scalar_of(other) {
                Ok(value) => Ok(value),
                Err(other) => {
                    let offset: u64 = self.tokenizer.get_offset();
                    Err(
                        PdfError::UnexpectedToken {
                            offset,
                            expected: Expected::Value,
                            got: other.kind(),
                        },
                    )
                },
            },
        }
    }

    /// Reads the values of an array up to its `]`; the `[` was passed.
    pub fn parse_array(&mut self) -> (r: Result<PDFValue, PdfError>)
        ensures
            value_result(r) == array_result(
                parse_array_from(old(self).tokenizer.model(), Seq::empty()).result,
            ),
            final(self).tokenizer.model() == parse_array_from(
                old(self).tokenizer.model(),
                Seq::empty(),
            ).after,
            final(self).pdf == old(self).pdf,
        decreases old(self).tokenizer.model().input.len() - old(self).tokenizer.model().pos, 1int,
    {
        let ghost start = self.tokenizer.model();
        let mut values: Vec<PDFValue> = Vec::new();
        loop
            invariant
                self.pdf == old(self).pdf,
                start == old(self).tokenizer.model(),
                self.tokenizer.model().input == start.input,
                start.pos <= self.tokenizer.model().pos,
                parse_array_from(self.tokenizer.model(), values_view(values@)) == parse_array_from(
                    start,
                    Seq::empty(),
                ),
            decreases self.tokenizer.model().input.len() - self.tokenizer.model().pos,
        {
            let ghost here = self.tokenizer.model();
            proof {
                lemma_step_progresses(here);
                lemma_value_progresses(here);
            }
            match self.tokenizer.peak_next() {
                Ok(PDFToken::ArrayEnd) => {
                    let _ = self.tokenizer.next();
                    return Ok(PDFValue::Array(values));
                },
                Ok(_) => {
                    match self.parse_value() {
                        Ok(value) => {
                            let ghost before = values@;
                            values.push(value);
                            assert(values@.drop_last() =~= before);
                        },
                        Err(e) => {
                            return Err(e);
                        },
                    }
                },
                Err(e) => {
                    return Err(e);
                },
            }
        }
    }

    /// Reads the entries of a dictionary up to its `>>`; the `<<` was passed.
    pub fn parse_dictionary(&mut self) -> (r: Result<PDFDictionary, PdfError>)
        ensures
            dictionary_result(r) == parse_dictionary_from(
                old(self).tokenizer.model(),
                Map::empty(),
            ).result,
            final(self).tokenizer.model() == parse_dictionary_from(
                old(self).tokenizer.model(),
                Map::empty(),
            ).after,
            final(self).pdf == old(self).pdf,
        decreases old(self).tokenizer.model().input.len() - old(self).tokenizer.model().pos, 1int,
    {
        let ghost start = self.tokenizer.model();
        let mut dictionary: PDFDictionary = PDFDictionary::new();
        loop
            invariant
                self.pdf == old(self).pdf,
                start == old(self).tokenizer.model(),
                self.tokenizer.model().input == start.input,
                start.pos <= self.tokenizer.model().pos,
                parse_dictionary_from(self.tokenizer.model(), dictionary@) == parse_dictionary_from(
                    start,
                    Map::empty(),
                ),
            decreases self.tokenizer.model().input.len() - self.tokenizer.model().pos,
        {
            let ghost here = self.tokenizer.model();
            proof {
                lemma_step_progresses(here);
                lemma_value_progresses(next_step(here).after);
            }
            let key: Vec<u8> = match self.tokenizer.next() {
                Ok(PDFToken::DictionaryEnd) => {
                    return Ok(dictionary);
                },
                Ok(PDFToken::Name(name)) => name,
                Ok(other) => {
                    let offset: u64 = self.tokenizer.get_offset();
                    return Err(
                        PdfError::UnexpectedToken {
                            offset,
                            expected: Expected::DictionaryKey,
                            got: other.kind(),
                        },
                    );
                },
                Err(e) => {
                    return Err(e);
                },
            };
            match self.parse_value() {
                Ok(value) => {
                    dictionary.insert(key, value);
                },
                Err(e) => {
                    return Err(e);
                },
            }
        }
    }
}

/// The indirect object whose header was read at `offset`: its value, and
/// `endobj` behind it.
pub open spec fn parse_object_spec(m: TokenizerModel, offset: u64, header: PDFObjectHeader) -> Stepped<
    ObjectView,
> {
    let body = parse_value_spec(m);
    match body.result {
        Err(e) => failed(e, body.after),
        Ok(value) => {
            let end = next_step(body.after);
            match end.result {
                Err(e) => failed(e, end.after),
                Ok(TokenView::ObjectEnd) => Stepped {
                    result: Ok(ObjectView { header, value, offset }),
                    after: end.after,
                },
                Ok(other) => failed(
                    unexpected_token(end.after, Expected::ObjectEnd, other),
                    end.after,
                ),
            }
        },
    }
}

pub open spec fn lifted_entries(entries: Seq<XRefEntry>) -> Seq<XRefStreamEntry> {
    entries.map_values(|e: XRefEntry| lifted(e))
}

/// The classical cross-reference table whose `xref` keyword was passed: the
/// line `first count`, and `count` entries behind it.
pub open spec fn parse_xref_spec(m: TokenizerModel) -> Stepped<XRefSectionView> {
    let first = next_step(m);
    match first.result {
        Err(e) => failed(e, first.after),
        Ok(TokenView::XRefSubSectionHeader(header)) => {
            let table = table_step(first.after, header.num_entries as nat);
            match table.result {
                Ok(entries) => Stepped {
                    result: Ok(
                        XRefSectionView { header: Some(header), entries: lifted_entries(entries) },
                    ),
                    after: table.after,
                },
                Err(e) => failed(e, table.after),
            }
        },
        Ok(other) => failed(
            unexpected_token(first.after, Expected::XRefSubSectionHeader, other),
            first.after,
        ),
    }
}

/// The trailer dictionary whose `trailer` keyword was passed: the value at
/// the cursor, which must be a dictionary.
pub open spec fn trailer_spec(m: TokenizerModel) -> Stepped<Map<Seq<u8>, ValueView>> {
    let value = parse_value_spec(m);
    match value.result {
        Ok(ValueView::Dictionary(dictionary)) => Stepped {
            result: Ok(dictionary),
            after: value.after,
        },
        Ok(other) => failed(
            PdfError::TypeMismatch {
                place: Place::Trailer,
                expected: ValueKind::Dictionary,
                got: kind_of(other),
            },
            value.after,
        ),
        Err(e) => failed(e, value.after),
    }
}

/// What the top-level parse made of a document: how it ended, what it had
/// read by then, and where it left the tokenizer.
pub struct DocumentParse {
    pub result: Result<(), PdfError>,
    pub document: PdfView,
    pub after: TokenizerModel,
}

/// What the parse made of one item between objects: whether the document
/// ended with it, the document with the item added, and the tokenizer behind
/// the item.
pub struct ItemParse {
    pub result: Result<bool, PdfError>,
    pub document: PdfView,
    pub after: TokenizerModel,
}

pub open spec fn stopped(e: PdfError, document: PdfView, after: TokenizerModel) -> ItemParse {
    ItemParse { result: Err(e), document, after }
}

pub open spec fn added(document: PdfView, after: TokenizerModel) -> ItemParse {
    ItemParse { result: Ok(false), document, after }
}

/// The item that a comment is: one that states a version sets the version.
pub open spec fn comment_item(text: Seq<u8>, after: TokenizerModel, document: PdfView) -> ItemParse {
    added(
        if matches_pattern(version_pattern(), text) {
            PdfView { version: Some(text), ..document }
        } else {
            document
        },
        after,
    )
}

/// The item that an object header opens: the indirect object, which is put
/// under its label with the offset of its header.
pub open spec fn object_item(
    offset: u64,
    header: PDFObjectHeader,
    m: TokenizerModel,
    document: PdfView,
) -> ItemParse {
    let object = parse_object_spec(m, offset, header);
    match object.result {
        Ok(read) => added(
            PdfView { objects: document.objects.insert(header, read), ..document },
            object.after,
        ),
        Err(e) => stopped(e, document, object.after),
    }
}

/// The item that `xref` opens: a classical table, which becomes the
/// cross-reference section.
pub open spec fn table_item(m: TokenizerModel, document: PdfView) -> ItemParse {
    let table = parse_xref_spec(m);
    match table.result {
        Ok(section) => added(PdfView { xref_table: Some(section), ..document }, table.after),
        Err(e) => stopped(e, document, table.after),
    }
}

/// The item that `trailer` opens: the trailer dictionary.
pub open spec fn trailer_item(m: TokenizerModel, document: PdfView) -> ItemParse {
    let trailer = trailer_spec(m);
    match trailer.result {
        Ok(dictionary) => added(PdfView { trailer: Some(dictionary), ..document }, trailer.after),
        Err(e) => stopped(e, document, trailer.after),
    }
}

/// What the item at the cursor adds to `document`. A comment that states a
/// version sets the version; an object header opens an indirect object;
/// `startxref` sets the offset of the cross-reference section; `xref` opens
/// a classical table; `trailer` opens the trailer dictionary; `%%EOF` ends
/// the document. No other token may stand between objects.
pub open spec fn parse_item_spec(m: TokenizerModel, document: PdfView) -> ItemParse {
    let first = next_step(m);
    match first.result {
        Err(e) => stopped(e, document, first.after),
        Ok(token) => match token {
            TokenView::Comment(text) => comment_item(text, first.after, document),
            TokenView::ObjectHeader(header) => object_item(
                m.pos as u64,
                header,
                first.after,
                document,
            ),
            TokenView::StartXRef(offset) => added(
                PdfView { startxref: Some(offset), ..document },
                first.after,
            ),
            TokenView::DocumentEnd => ItemParse { result: Ok(true), document, after: first.after },
            TokenView::XRefSectionBegin => table_item(first.after, document),
            TokenView::TrailerBegin => trailer_item(first.after, document),
            other => stopped(
                unexpected_token(first.after, Expected::TopLevel, other),
                document,
                first.after,
            ),
        },
    }
}

/// The document that the items from the cursor on add to `document`, up to
/// the end of the document or the first failure.
pub open spec fn parse_document(m: TokenizerModel, document: PdfView) -> DocumentParse
    decreases m.input.len() - m.pos,
{
    let item = parse_item_spec(m, document);
    match item.result {
        Err(e) => DocumentParse { result: Err(e), document: item.document, after: item.after },
        Ok(ended) => if ended {
            DocumentParse { result: Ok(()), document: item.document, after: item.after }
        } else if progressed(m, item.after) {
            parse_document(item.after, item.document)
        } else {
            DocumentParse {
                result: Err(PdfError::StateViolation { cause: Violation::Stalled }),
                document: item.document,
                after: item.after,
            }
        },
    }
}

/// An object that is read ends behind where it starts.
pub proof fn lemma_object_progresses(m: TokenizerModel, offset: u64, header: PDFObjectHeader)
    ensures
        parse_object_spec(m, offset, header).after.input == m.input,
        m.pos <= parse_object_spec(m, offset, header).after.pos,
        parse_object_spec(m, offset, header).result is Ok ==> progressed(
            m,
            parse_object_spec(m, offset, header).after,
        ),
{
    lemma_value_progresses(m);
    lemma_step_progresses(parse_value_spec(m).after);
}

/// A table that is read ends behind where it starts.
pub proof fn lemma_xref_progresses(m: TokenizerModel)
    ensures
        parse_xref_spec(m).after.input == m.input,
        m.pos <= parse_xref_spec(m).after.pos,
        parse_xref_spec(m).result is Ok ==> progressed(m, parse_xref_spec(m).after),
{
    lemma_step_progresses(m);
    let first = next_step(m);
    match first.result {
        Ok(TokenView::XRefSubSectionHeader(header)) => {
            lemma_table_progresses(
                first.after.input,
                first.after.pos as int,
                header.num_entries as nat,
            );
        },
        _ => {},
    }
}

/// The entries of a table end at or behind where they start.
pub proof fn lemma_table_progresses(s: Seq<u8>, pos: int, count: nat)
    requires
        0 <= pos,
    ensures
        crate::tokenizer::table_entries(s, pos, count) matches Ok((entries, end)) ==> pos <= end
            && (count == 0 || end <= s.len()),
    decreases count,
{
    if count > 0 {
        lemma_lex_advances(s, pos, crate::tokenizer::TokenizerState::XRefEntry);
        match crate::lexer::lex(s, pos, crate::tokenizer::TokenizerState::XRefEntry) {
            Ok(l) => {
                lemma_table_progresses(s, l.end, (count - 1) as nat);
            },
            Err(e) => {},
        }
    }
}

pub open spec fn object_result(r: Result<PDFObject, PdfError>) -> Result<ObjectView, PdfError> {
    match r {
        Ok(object) => Ok(object@),
        Err(e) => Err(e),
    }
}

pub open spec fn section_result(r: Result<XRefSection, PdfError>) -> Result<
    XRefSectionView,
    PdfError,
> {
    match r {
        Ok(section) => Ok(section@),
        Err(e) => Err(e),
    }
}

/// The entries of a classical table as records.
pub fn lift_entries(entries: &Vec<XRefEntry>) -> (r: Vec<XRefStreamEntry>)
    ensures
        r@ == lifted_entries(entries@),
{
    let mut out: Vec<XRefStreamEntry> = Vec::new();
    let mut i: usize = 0;
    while i < entries.len()
        invariant
            i <= entries@.len(),
            out@.len() == i,
            forall|k: int| 0 <= k < i ==> out@[k] == lifted(#[trigger] entries@[k]),
        decreases entries@.len() - i,
    {
        out.push(entries[i].lift());
        i = i + 1;
    }
    assert(out@ =~= lifted_entries(entries@));
    out
}

impl<T: PDFTokenize> Reader<T> {
    /// Reads the indirect object whose header `header` was read at `offset`.
    pub fn parse_object(&mut self, offset: u64, header: &PDFObjectHeader) -> (r: Result<
        PDFObject,
        PdfError,
    >)
        ensures
            object_result(r) == parse_object_spec(
                old(self).tokenizer.model(),
                offset,
                *header,
            ).result,
            final(self).tokenizer.model() == parse_object_spec(
                old(self).tokenizer.model(),
                offset,
                *header,
            ).after,
            final(self).pdf == old(self).pdf,
    {
        let value: PDFValue = match self.parse_value() {
            Ok(value) => value,
            Err(e) => {
                return Err(e);
            },
        };
        match self.tokenizer.next() {
            Ok(PDFToken::ObjectEnd) => Ok(PDFObject { header: *header, value, offset }),
            Ok(other) => {
                let at: u64 = self.tokenizer.get_offset();
                Err(
                    PdfError::UnexpectedToken {
                        offset: at,
                        expected: Expected::ObjectEnd,
                        got: other.kind(),
                    },
                )
            },
            Err(e) => Err(e),
        }
    }

    /// Reads the classical cross-reference table whose `xref` keyword was
    /// passed.
    pub fn parse_xref(&mut self) -> (r: Result<XRefSection, PdfError>)
        ensures
            section_result(r) == parse_xref_spec(old(self).tokenizer.model()).result,
            final(self).tokenizer.model() == parse_xref_spec(old(self).tokenizer.model()).after,
            final(self).pdf == old(self).pdf,
    {
        let header = match self.tokenizer.next() {
            Ok(PDFToken::XRefSubSectionHeader(header)) => header,
            Ok(other) => {
                let at: u64 = self.tokenizer.get_offset();
                return Err(
                    PdfError::UnexpectedToken {
                        offset: at,
                        expected: Expected::XRefSubSectionHeader,
                        got: other.kind(),
                    },
                );
            },
            Err(e) => {
                return Err(e);
            },
        };
        match self.tokenizer.get_xref_table(header.num_entries) {
            Ok(entries) => Ok(XRefSection { header: Some(header), entries: lift_entries(&entries) }),
            Err(e) => Err(e),
        }
    }

    /// Sets the version of the document.
    pub fn set_version(&mut self, version: Vec<u8>)
        ensures
            final(self).pdf@ == (PdfView { version: Some(version@), ..old(self).pdf@ }),
            final(self).tokenizer == old(self).tokenizer,
    {
        self.pdf.version = Some(version);
    }

    /// Puts an object into the document, under its label.
    pub fn add_object(&mut self, object: PDFObject)
        ensures
            final(self).pdf@ == (PdfView {
                objects: old(self).pdf@.objects.insert(object.header, object@),
                ..old(self).pdf@
            }),
            final(self).tokenizer == old(self).tokenizer,
    {
        self.pdf.objects.insert(object);
    }

    /// Sets the offset of the cross-reference section.
    pub fn set_startxref(&mut self, offset: u64)
        ensures
            final(self).pdf@ == (PdfView { startxref: Some(offset), ..old(self).pdf@ }),
            final(self).tokenizer == old(self).tokenizer,
    {
        self.pdf.startxref = Some(offset);
    }

    /// Sets the cross-reference section.
    pub fn set_xref_table(&mut self, section: XRefSection)
        ensures
            final(self).pdf@ == (PdfView { xref_table: Some(section@), ..old(self).pdf@ }),
            final(self).tokenizer == old(self).tokenizer,
    {
        self.pdf.xref_table = Some(section);
    }

    /// Sets the trailer dictionary.
    pub fn set_trailer(&mut self, trailer: PDFDictionary)
        ensures
            final(self).pdf@ == (PdfView { trailer: Some(trailer@), ..old(self).pdf@ }),
            final(self).tokenizer == old(self).tokenizer,
    {
        self.pdf.trailer = Some(trailer);
    }

    /// Reads the trailer dictionary, whose `trailer` keyword was passed.
    pub fn parse_trailer(&mut self) -> (r: Result<PDFDictionary, PdfError>)
        ensures
            dictionary_result(r) == trailer_spec(old(self).tokenizer.model()).result,
            final(self).tokenizer.model() == trailer_spec(old(self).tokenizer.model()).after,
            final(self).pdf == old(self).pdf,
    {
        match self.parse_value() {
            Ok(PDFValue::Dictionary(dictionary)) => Ok(dictionary),
            Ok(other) => Err(
                PdfError::TypeMismatch {
                    place: Place::Trailer,
                    expected: ValueKind::Dictionary,
                    got: other.kind(),
                },
            ),
            Err(e) => Err(e),
        }
    }

    /// Adds what a comment says to the document.
    pub fn read_comment_item(&mut self, comment: Vec<u8>) -> (r: Result<bool, PdfError>)
        ensures
            r == comment_item(comment@, old(self).tokenizer.model(), old(self).pdf@).result,
            final(self).pdf@ == comment_item(
                comment@,
                old(self).tokenizer.model(),
                old(self).pdf@,
            ).document,
            final(self).tokenizer == old(self).tokenizer,
    {
        if comment.is_version() {
            self.set_version(comment);
        }
        Ok(false)
    }

    /// Reads the indirect object whose header was read, and adds it to the
    /// document.
    pub fn read_object_item(&mut self, offset: u64, header: PDFObjectHeader) -> (r: Result<
        bool,
        PdfError,
    >)
        ensures
            r == object_item(offset, header, old(self).tokenizer.model(), old(self).pdf@).result,
            final(self).pdf@ == object_item(
                offset,
                header,
                old(self).tokenizer.model(),
                old(self).pdf@,
            ).document,
            final(self).tokenizer.model() == object_item(
                offset,
                header,
                old(self).tokenizer.model(),
                old(self).pdf@,
            ).after,
    {
        match self.parse_object(offset, &header) {
            Ok(object) => {
                self.add_object(object);
                Ok(false)
            },
            Err(e) => Err(e),
        }
    }

    /// Reads the classical table whose `xref` keyword was passed, and makes
    /// it the cross-reference section of the document.
    pub fn read_table_item(&mut self) -> (r: Result<bool, PdfError>)
        ensures
            r == table_item(old(self).tokenizer.model(), old(self).pdf@).result,
            final(self).pdf@ == table_item(old(self).tokenizer.model(), old(self).pdf@).document,
            final(self).tokenizer.model() == table_item(
                old(self).tokenizer.model(),
                old(self).pdf@,
            ).after,
    {
        match self.parse_xref() {
            Ok(section) => {
                self.set_xref_table(section);
                Ok(false)
            },
            Err(e) => Err(e),
        }
    }

    /// Reads the trailer dictionary whose `trailer` keyword was passed, and
    /// adds it to the document.
    pub fn read_trailer_item(&mut self) -> (r: Result<bool, PdfError>)
        ensures
            r == trailer_item(old(self).tokenizer.model(), old(self).pdf@).result,
            final(self).pdf@ == trailer_item(old(self).tokenizer.model(), old(self).pdf@).document,
            final(self).tokenizer.model() == trailer_item(
                old(self).tokenizer.model(),
                old(self).pdf@,
            ).after,
    {
        match self.parse_trailer() {
            Ok(dictionary) => {
                self.set_trailer(dictionary);
                Ok(false)
            },
            Err(e) => Err(e),
        }
    }

    /// Reads the item at the cursor and adds it to the document; `true`
    /// where the document ends with it.
    pub fn parse_item(&mut self) -> (r: Result<bool, PdfError>)
        ensures
            r == parse_item_spec(old(self).tokenizer.model(), old(self).pdf@).result,
            final(self).pdf@ == parse_item_spec(old(self).tokenizer.model(), old(self).pdf@).document,
            final(self).tokenizer.model() == parse_item_spec(
                old(self).tokenizer.model(),
                old(self).pdf@,
            ).after,
    {
        let current_offset: u64 = self.tokenizer.get_offset();
        let token: PDFToken = match self.tokenizer.next() {
            Ok(token) => token,
            Err(e) => {
                return Err(e);
            },
        };
        match token {
            PDFToken::Comment(comment) => self.read_comment_item(comment),
            PDFToken::ObjectHeader(header) => self.read_object_item(current_offset, header),
            PDFToken::StartXRef(offset) => {
                self.set_startxref(offset);
                Ok(false)
            },
            PDFToken::DocumentEnd => Ok(true),
            PDFToken::XRefSectionBegin => self.read_table_item(),
            PDFToken::TrailerBegin => self.read_trailer_item(),
            other => {
                let at: u64 = self.tokenizer.get_offset();
                Err(
                    PdfError::UnexpectedToken {
                        offset: at,
                        expected: Expected::TopLevel,
                        got: other.kind(),
                    },
                )
            },
        }
    }

    /// Reads the document from the cursor on, up to its end: the version,
    /// the indirect objects, the cross-reference table and the trailer.
    pub fn parse(&mut self) -> (r: Result<(), PdfError>)
        ensures
            r == parse_document(old(self).tokenizer.model(), old(self).pdf@).result,
            final(self).pdf@ == parse_document(old(self).tokenizer.model(), old(self).pdf@).document,
            final(self).tokenizer.model() == parse_document(
                old(self).tokenizer.model(),
                old(self).pdf@,
            ).after,
    {
        loop
            invariant
                parse_document(self.tokenizer.model(), self.pdf@) == parse_document(
                    old(self).tokenizer.model(),
                    old(self).pdf@,
                ),
            decreases self.tokenizer.model().input.len() - self.tokenizer.model().pos,
        {
            proof {
                lemma_item_progresses(self.tokenizer.model(), self.pdf@);
            }
            match self.parse_item() {
                Ok(ended) => {
                    if ended {
                        return Ok(());
                    }
                },
                Err(e) => {
                    return Err(e);
                },
            }
        }
    }
}

/// An item that is read ends behind where it starts.
pub proof fn lemma_item_progresses(m: TokenizerModel, document: PdfView)
    ensures
        parse_item_spec(m, document).after.input == m.input,
        m.pos <= parse_item_spec(m, document).after.pos,
        parse_item_spec(m, document).result is Ok ==> progressed(
            m,
            parse_item_spec(m, document).after,
        ),
{
    lemma_step_progresses(m);
    let first = next_step(m);
    match first.result {
        Ok(TokenView::ObjectHeader(header)) => {
            lemma_object_progresses(first.after, m.pos as u64, header);
        },
        Ok(TokenView::XRefSectionBegin) => {
            lemma_xref_progresses(first.after);
        },
        Ok(TokenView::TrailerBegin) => {
            lemma_value_progresses(first.after);
        },
        Ok(TokenView::Comment(text)) => {},
        _ => {},
    }
}

/// What the building of the page list made of a document.
pub struct Built {
    pub result: Result<(), PdfError>,
    pub document: PdfView,
}

/// The document with its catalog and its pages: the catalog is found, the
/// root of the page tree is the object that the catalog names, and the pages
/// are those of the walk over the tree. A cross-reference stream that leads
/// to the catalog becomes the cross-reference section of the document.
pub open spec fn built(document: PdfView) -> Built {
    let found = crate::tree::find_root(
        document.objects,
        document.trailer,
        document.startxref,
        document.xref_table,
    );
    let seen = PdfView { xref_table: found.xref_table, ..document };
    match found.result {
        Err(e) => Built { result: Err(e), document: seen },
        Ok(root) => match crate::tree::pages_dictionary(document.objects, root) {
            Err(e) => Built { result: Err(e), document: seen },
            Ok(dictionary) => match crate::tree::page_list(document.objects, dictionary) {
                Err(e) => Built { result: Err(e), document: seen },
                Ok(pages) => Built {
                    result: Ok(()),
                    document: PdfView { root: Some(root), pages, ..seen },
                },
            },
        },
    }
}

/// What reading made of a document: the parse, and the building of the page
/// list where the parse succeeded.
pub open spec fn read_document(m: TokenizerModel, document: PdfView) -> DocumentParse {
    let parsed = parse_document(m, document);
    match parsed.result {
        Err(e) => parsed,
        Ok(_) => DocumentParse {
            result: built(parsed.document).result,
            document: built(parsed.document).document,
            after: parsed.after,
        },
    }
}

impl<T: PDFTokenize> Reader<T> {
    /// A copy of the object whose header stands at `offset`.
    pub fn get_object_at_offset(&mut self, offset: u64) -> (r: Option<PDFObject>)
        ensures
            crate::pdf::option_object(r) == crate::pdf::object_at(old(self).pdf@.objects, offset),
            *final(self) == *old(self),
    {
        self.pdf.objects.copy_at_offset(offset)
    }

    /// A copy of the object that `reference` refers to.
    pub fn get_object_by_reference(&mut self, reference: &PDFObjectHeader) -> (r: Option<
        PDFObject,
    >)
        ensures
            crate::pdf::option_object(r) == if old(self).pdf@.objects.dom().contains(*reference) {
                Some(old(self).pdf@.objects[*reference])
            } else {
                None
            },
            *final(self) == *old(self),
    {
        self.pdf.objects.copy_of(reference)
    }

    /// Decodes the payload of a cross-reference stream with the field widths
    /// `widths`.
    pub fn parse_xref_stream(&mut self, widths: Vec<u64>, bytes: Vec<u8>) -> (r: Result<
        Vec<XRefStreamEntry>,
        PdfError,
    >)
        ensures
            crate::xref::records_result(r) == crate::xref::records(bytes@, widths@),
            *final(self) == *old(self),
    {
        crate::xref::decode_xref_stream(widths.as_slice(), bytes.as_slice())
    }

    /// Finds the catalog by way of the cross-reference stream `stream`,
    /// given what decoding made of its bytes.
    pub fn root_from_stream(&mut self, stream: &PDFStream, payload: Result<Vec<u8>, PdfError>) -> (r:
        Result<PDFObject, PdfError>)
        ensures
            crate::tree::object_outcome(r) == crate::tree::root_from_stream(
                old(self).pdf@.objects,
                old(self).pdf@.xref_table,
                stream@.dictionary,
                crate::pdf::bytes_outcome(payload),
            ).result,
            final(self).pdf@ == (PdfView {
                xref_table: crate::tree::root_from_stream(
                    old(self).pdf@.objects,
                    old(self).pdf@.xref_table,
                    stream@.dictionary,
                    crate::pdf::bytes_outcome(payload),
                ).xref_table,
                ..old(self).pdf@
            }),
            final(self).tokenizer == old(self).tokenizer,
    {
        let widths: Vec<u64> = match crate::tree::read_widths(&stream.dictionary) {
            Ok(widths) => widths,
            Err(e) => {
                return Err(e);
            },
        };
        match crate::tree::check_size(&stream.dictionary) {
            Ok(_) => {},
            Err(e) => {
                return Err(e);
            },
        }
        let data: Vec<u8> = match payload {
            Ok(data) => data,
            Err(e) => {
                return Err(e);
            },
        };
        let entries: Vec<XRefStreamEntry> = match self.parse_xref_stream(widths, data) {
            Ok(entries) => entries,
            Err(e) => {
                return Err(e);
            },
        };
        self.set_xref_table(XRefSection { header: None, entries });
        match crate::tree::read_reference_under(
            &stream.dictionary,
            crate::tree::Key::Root,
            Place::Root,
        ) {
            Ok(id) => crate::tree::resolve_copy(&self.pdf.objects, &id),
            Err(e) => Err(e),
        }
    }

    /// Finds the catalog of the document.
    pub fn get_root_object(&mut self) -> (r: Result<PDFObject, PdfError>)
        ensures
            crate::tree::object_outcome(r) == crate::tree::find_root(
                old(self).pdf@.objects,
                old(self).pdf@.trailer,
                old(self).pdf@.startxref,
                old(self).pdf@.xref_table,
            ).result,
            final(self).pdf@ == (PdfView {
                xref_table: crate::tree::find_root(
                    old(self).pdf@.objects,
                    old(self).pdf@.trailer,
                    old(self).pdf@.startxref,
                    old(self).pdf@.xref_table,
                ).xref_table,
                ..old(self).pdf@
            }),
            final(self).tokenizer == old(self).tokenizer,
    {
        let by_trailer: Option<PDFObjectHeader> = match &self.pdf.trailer {
            Some(trailer) => match crate::tree::lookup(trailer, crate::tree::Key::Root) {
                Some(PDFValue::ObjectReference(id)) => Some(*id),
                _ => None,
            },
            None => None,
        };
        match by_trailer {
            Some(id) => {
                return crate::tree::resolve_copy(&self.pdf.objects, &id);
            },
            None => {},
        }
        let offset: u64 = match self.pdf.startxref {
            Some(offset) => offset,
            None => {
                return Err(PdfError::XRefFormat { cause: crate::error::XRefFault::NoRoot });
            },
        };
        let object: PDFObject = match self.get_object_at_offset(offset) {
            Some(object) => object,
            None => {
                return Err(PdfError::XRefFormat { cause: crate::error::XRefFault::NoRoot });
            },
        };
        match &object.value {
            PDFValue::Stream(stream) => {
                let payload: Result<Vec<u8>, PdfError> = stream.decompress();
                self.root_from_stream(stream, payload)
            },
            other => Err(
                PdfError::TypeMismatch {
                    place: Place::XRefStream,
                    expected: ValueKind::Stream,
                    got: other.kind(),
                },
            ),
        }
    }

    /// The dictionary of the root of the page tree.
    pub fn get_pages_dict(&mut self, root: &PDFObject) -> (r: Result<PDFDictionary, PdfError>)
        ensures
            dictionary_result(r) == crate::tree::pages_dictionary(old(self).pdf@.objects, root@),
            *final(self) == *old(self),
    {
        crate::tree::read_pages_dictionary(&self.pdf.objects, root)
    }

    /// The pages of the tree whose root has the dictionary `pages_dict`.
    pub fn read_pages(&mut self, pages_dict: &PDFDictionary) -> (r: Result<
        Vec<crate::page::PDFPage>,
        PdfError,
    >)
        ensures
            crate::tree::pages_outcome(r) == crate::tree::page_list(
                old(self).pdf@.objects,
                pages_dict@,
            ),
            *final(self) == *old(self),
    {
        crate::tree::read_page_list(&self.pdf.objects, pages_dict)
    }

    /// Finds the catalog and lists the pages.
    pub fn build_tree(&mut self) -> (r: Result<(), PdfError>)
        ensures
            r == built(old(self).pdf@).result,
            final(self).pdf@ == built(old(self).pdf@).document,
            final(self).tokenizer == old(self).tokenizer,
    {
        let root: PDFObject = match self.get_root_object() {
            Ok(root) => root,
            Err(e) => {
                return Err(e);
            },
        };
        let pages_dict: PDFDictionary = match self.get_pages_dict(&root) {
            Ok(dictionary) => dictionary,
            Err(e) => {
                return Err(e);
            },
        };
        match self.read_pages(&pages_dict) {
            Ok(pages) => {
                self.set_pages(root, pages);
                Ok(())
            },
            Err(e) => Err(e),
        }
    }

    /// Sets the catalog and the pages.
    pub fn set_pages(&mut self, root: PDFObject, pages: Vec<crate::page::PDFPage>)
        ensures
            final(self).pdf@ == (PdfView {
                root: Some(root@),
                pages: crate::pdf::pages_view(pages@),
                ..old(self).pdf@
            }),
            final(self).tokenizer == old(self).tokenizer,
    {
        self.pdf.root = Some(root);
        self.pdf.pages = pages;
    }

    /// Reads the document: parses it, then finds the catalog and lists the
    /// pages.
    pub fn read(&mut self) -> (r: Result<(), PdfError>)
        ensures
            r == read_document(old(self).tokenizer.model(), old(self).pdf@).result,
            final(self).pdf@ == read_document(old(self).tokenizer.model(), old(self).pdf@).document,
            final(self).tokenizer.model() == read_document(
                old(self).tokenizer.model(),
                old(self).pdf@,
            ).after,
    {
        match self.parse() {
            Ok(_) => self.build_tree(),
            Err(e) => Err(e),
        }
    }
}

/// Whether a stream has as many bytes as its dictionary states under
/// `Length`.
pub open spec fn stream_sized(dictionary: Map<Seq<u8>, ValueView>, bytes: Seq<u8>) -> bool {
    stated_length(dictionary) matches Ok(length) && bytes.len() == length
}

/// Whether every stream in a value, at whatever depth, has as many bytes as
/// its dictionary states.
pub open spec fn streams_sized(value: ValueView) -> bool
    decreases value,
{
    match value {
        ValueView::Stream(dictionary, bytes) => stream_sized(dictionary, bytes) && forall|
            key: Seq<u8>,
        |
            dictionary.dom().contains(key) ==> streams_sized(#[trigger] dictionary[key]),
        ValueView::Dictionary(dictionary) => forall|key: Seq<u8>|
            dictionary.dom().contains(key) ==> streams_sized(#[trigger] dictionary[key]),
        ValueView::Array(values) => forall|i: int|
            0 <= i < values.len() ==> streams_sized(#[trigger] values[i]),
        _ => true,
    }
}

pub open spec fn all_sized(values: Seq<ValueView>) -> bool {
    forall|i: int| 0 <= i < values.len() ==> streams_sized(#[trigger] values[i])
}

pub open spec fn entries_sized(dictionary: Map<Seq<u8>, ValueView>) -> bool {
    forall|key: Seq<u8>| dictionary.dom().contains(key) ==> streams_sized(#[trigger] dictionary[key])
}

/// Every stream that the parser gives has as many bytes as its dictionary
/// states under `Length`: the value that is read at the cursor holds no
/// other stream, at whatever depth.
pub proof fn lemma_stream_length(m: TokenizerModel)
    ensures
        parse_value_spec(m).result matches Ok(value) ==> streams_sized(value),
    decreases m.input.len() - m.pos, 0int,
{
    let first = next_step(m);
    lemma_step_progresses(m);
    match first.result {
        Ok(token) => {
            match token {
                TokenView::ArrayStart => {
                    lemma_array_stream_length(first.after, Seq::empty());
                },
                TokenView::DictionaryStart => {
                    lemma_dictionary_stream_length(first.after, Map::empty());
                    let entries = parse_dictionary_from(first.after, Map::empty());
                    match entries.result {
                        Ok(dictionary) => {
                            let body = next_step(entries.after).after;
                            match stated_length(dictionary) {
                                Ok(length) => {
                                    if length <= usize::MAX {
                                        let read = stream_step(body, length as nat);
                                        if read.result is Ok {
                                            assert(read.result->Ok_0.len() == length);
                                        }
                                    }
                                },
                                Err(e) => {},
                            }
                        },
                        Err(e) => {},
                    }
                },
                _ => {},
            }
        },
        Err(e) => {},
    }
}

pub proof fn lemma_array_stream_length(m: TokenizerModel, done: Seq<ValueView>)
    requires
        all_sized(done),
    ensures
        parse_array_from(m, done).result matches Ok(values) ==> all_sized(values),
    decreases m.input.len() - m.pos, 1int,
{
    lemma_step_progresses(m);
    match peek_step(m).result {
        Ok(TokenView::ArrayEnd) => {},
        Ok(_) => {
            lemma_stream_length(m);
            lemma_value_progresses(m);
            let item = parse_value_spec(m);
            match item.result {
                Ok(value) => {
                    lemma_array_stream_length(item.after, done.push(value));
                },
                Err(e) => {},
            }
        },
        Err(e) => {},
    }
}

pub proof fn lemma_dictionary_stream_length(m: TokenizerModel, done: Map<Seq<u8>, ValueView>)
    requires
        entries_sized(done),
    ensures
        parse_dictionary_from(m, done).result matches Ok(dictionary) ==> entries_sized(dictionary),
    decreases m.input.len() - m.pos, 1int,
{
    let first = next_step(m);
    lemma_step_progresses(m);
    match first.result {
        Ok(TokenView::Name(key)) => {
            lemma_stream_length(first.after);
            lemma_value_progresses(first.after);
            let item = parse_value_spec(first.after);
            match item.result {
                Ok(value) => {
                    lemma_dictionary_stream_length(item.after, done.insert(key, value));
                },
                Err(e) => {},
            }
        },
        _ => {},
    }
}

/// The tokenizer at the cursor of a byte source, between objects.
pub open spec fn tokenizer_at(cursor: crate::cursor::CursorModel) -> TokenizerModel {
    TokenizerModel {
        input: cursor.bytes,
        pos: cursor.pos,
        stack: seq![crate::tokenizer::TokenizerState::Start],
    }
}

/// What reading makes of the document that a byte source holds from its
/// cursor on.
pub open spec fn opened(cursor: crate::cursor::CursorModel) -> DocumentParse {
    read_document(tokenizer_at(cursor), empty_document())
}

/// Reads the document that `cursor` holds: its objects, its catalog and its
/// pages. A document that cannot be read as a whole is not read at all.
pub fn open(cursor: crate::cursor::ByteCursor) -> (r: Result<PDF, PdfError>)
    ensures
        match r {
            Ok(document) => opened(cursor@).result is Ok && document@ == opened(cursor@).document,
            Err(e) => opened(cursor@).result == Err::<(), PdfError>(e),
        },
{
    let mut reader = Reader::new(crate::tokenizer::Tokenizer::new(cursor));
    match reader.read() {
        Ok(_) => {
            let Reader { pdf, tokenizer: _ } = reader;
            Ok(pdf)
        },
        Err(e) => Err(e),
    }
}

pub open spec fn never_stalled<T>(r: Result<T, PdfError>) -> bool {
    r matches Err(e) ==> !crate::lexer::is_stalled(e)
}

proof fn lemma_step_never_stalled(m: TokenizerModel)
    ensures
        never_stalled(next_step(m).result),
{
    if m.stack.len() > 0 {
        crate::lexer::lemma_lex_never_stalled(m.input, m.pos as int, m.stack.last());
    }
}

proof fn lemma_stream_never_stalled(m: TokenizerModel, dictionary: Map<Seq<u8>, ValueView>)
    ensures
        never_stalled(parse_stream_spec(m, dictionary).result),
{
    match stated_length(dictionary) {
        Ok(length) => {
            if length <= usize::MAX {
                lemma_step_never_stalled(stream_step(m, length as nat).after);
            }
        },
        Err(e) => {},
    }
}

/// The parser always moves forward: the value at the cursor never fails for
/// want of progress.
pub proof fn lemma_value_never_stalled(m: TokenizerModel)
    ensures
        never_stalled(parse_value_spec(m).result),
    decreases m.input.len() - m.pos, 0int,
{
    let first = next_step(m);
    lemma_step_progresses(m);
    lemma_step_never_stalled(m);
    match first.result {
        Ok(token) => {
            match token {
                TokenView::ArrayStart => {
                    lemma_array_never_stalled(first.after, Seq::empty());
                },
                TokenView::DictionaryStart => {
                    lemma_dictionary_never_stalled(first.after, Map::empty());
                    let entries = parse_dictionary_from(first.after, Map::empty());
                    match entries.result {
                        Ok(dictionary) => {
                            lemma_stream_never_stalled(next_step(entries.after).after, dictionary);
                        },
                        Err(e) => {},
                    }
                },
                _ => {},
            }
        },
        Err(e) => {},
    }
}

proof fn lemma_array_never_stalled(m: TokenizerModel, done: Seq<ValueView>)
    ensures
        never_stalled(parse_array_from(m, done).result),
    decreases m.input.len() - m.pos, 1int,
{
    lemma_step_progresses(m);
    lemma_step_never_stalled(m);
    match peek_step(m).result {
        Ok(TokenView::ArrayEnd) => {},
        Ok(_) => {
            lemma_value_never_stalled(m);
            lemma_value_progresses(m);
            let item = parse_value_spec(m);
            match item.result {
                Ok(value) => {
                    lemma_array_never_stalled(item.after, done.push(value));
                },
                Err(e) => {},
            }
        },
        Err(e) => {},
    }
}

proof fn lemma_dictionary_never_stalled(m: TokenizerModel, done: Map<Seq<u8>, ValueView>)
    ensures
        never_stalled(parse_dictionary_from(m, done).result),
    decreases m.input.len() - m.pos, 1int,
{
    let first = next_step(m);
    lemma_step_progresses(m);
    lemma_step_never_stalled(m);
    match first.result {
        Ok(TokenView::Name(key)) => {
            lemma_value_never_stalled(first.after);
            lemma_value_progresses(first.after);
            let item = parse_value_spec(first.after);
            match item.result {
                Ok(value) => {
                    lemma_dictionary_never_stalled(item.after, done.insert(key, value));
                },
                Err(e) => {},
            }
        },
        _ => {},
    }
}

proof fn lemma_table_never_stalled(s: Seq<u8>, pos: int, count: nat)
    ensures
        never_stalled(crate::tokenizer::table_entries(s, pos, count)),
    decreases count,
{
    if count > 0 {
        crate::lexer::lemma_lex_never_stalled(s, pos, crate::tokenizer::TokenizerState::XRefEntry);
        match crate::lexer::lex(s, pos, crate::tokenizer::TokenizerState::XRefEntry) {
            Ok(l) => {
                lemma_table_never_stalled(s, l.end, (count - 1) as nat);
            },
            Err(e) => {},
        }
    }
}

proof fn lemma_item_never_stalled(m: TokenizerModel, document: PdfView)
    ensures
        never_stalled(parse_item_spec(m, document).result),
{
    let first = next_step(m);
    lemma_step_never_stalled(m);
    match first.result {
        Ok(TokenView::ObjectHeader(header)) => {
            lemma_value_never_stalled(first.after);
            lemma_step_never_stalled(parse_value_spec(first.after).after);
        },
        Ok(TokenView::XRefSectionBegin) => {
            lemma_step_never_stalled(first.after);
            let header = next_step(first.after);
            match header.result {
                Ok(TokenView::XRefSubSectionHeader(h)) => {
                    lemma_table_never_stalled(
                        header.after.input,
                        header.after.pos as int,
                        h.num_entries as nat,
                    );
                },
                _ => {},
            }
        },
        Ok(TokenView::TrailerBegin) => {
            lemma_value_never_stalled(first.after);
        },
        _ => {},
    }
}

/// The parse of a document never fails for want of progress: each item that
/// is read moves the cursor forward, so the parse ends.
pub proof fn lemma_document_never_stalled(m: TokenizerModel, document: PdfView)
    ensures
        never_stalled(parse_document(m, document).result),
    decreases m.input.len() - m.pos,
{
    let item = parse_item_spec(m, document);
    lemma_item_never_stalled(m, document);
    lemma_item_progresses(m, document);
    match item.result {
        Ok(ended) => {
            if !ended {
                lemma_document_never_stalled(item.after, item.document);
            }
        },
        Err(e) => {},
    }
}

} // verus!
