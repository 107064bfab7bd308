//! The tokenizer: a pushdown automaton over the bytes of a document.
use crate::cursor::ByteCursor;
use crate::error::{PdfError, Violation};
use crate::lexer::{
    apply_effect, header_at, lex, lex_at, number_at, popped, read_header, read_number_at,
    read_reference, reference_at, skip_ws, value_done, word_end, Lexeme, StackEffect,
};
use crate::number::Decimal;
use crate::scan::{copy_range, scan_run, ByteClass, CR, LF};
use crate::strings::{
    all_hex_digits, decode_hex, first_non_hex, hex_bytes, literal_body, read_literal, Decoded,
};
use vstd::prelude::*;

verus! {

/// The label of an indirect object: `N G obj`, referred to as `N G R`.
/// Labels are ordered by object number, then by generation.
#[derive(Debug, PartialEq, Eq, PartialOrd, Ord, Hash, Clone, Copy, Structural)]
pub struct PDFObjectHeader {
    pub object_number: u64,
    pub generation_number: u64,
}

/// One line of a classical cross-reference table.
#[derive(Debug, PartialEq, Eq, Clone, Copy, Structural)]
pub struct XRefEntry {
    pub byte_offset: u64,
    pub generation_number: u64,
    pub free: bool,
}

/// The line that opens a subsection of a classical cross-reference table.
#[derive(Debug, PartialEq, Eq, Clone, Copy, Structural)]
pub struct XRefHeader {
    pub first_object_number: u64,
    pub num_entries: u64,
}

/// One record of a cross-reference stream. An entry of a classical table is
/// one of the first two.
#[derive(Debug, PartialEq, Eq, Clone, Copy, Structural)]
pub enum XRefStreamEntry {
    /// A free object: the number of the next free object, and the generation
    /// that the object gets when it is used again.
    Free { next_free_obj: u64, next_gen: u64 },
    /// An object that stands in the file at `offset`.
    Uncompressed { offset: u64, gen: u64 },
    /// An object that stands in an object stream, at `index` in it.
    Compressed { parent_stream_obj: u64, index: u64 },
}

/// A cross-reference section, classical or from a stream: its entries in the
/// order of the object numbers, and the subsection header where a classical
/// table gave one.
#[derive(Debug, PartialEq, Eq, Clone)]
pub struct XRefSection {
    pub header: Option<XRefHeader>,
    pub entries: Vec<XRefStreamEntry>,
}

/// A cross-reference section as a mathematical value.
pub struct XRefSectionView {
    pub header: Option<XRefHeader>,
    pub entries: Seq<XRefStreamEntry>,
}

impl View for XRefSection {
    type V = XRefSectionView;

    open spec fn view(&self) -> XRefSectionView {
        XRefSectionView { header: self.header, entries: self.entries@ }
    }
}

/// The entry of a classical table as a record.
pub open spec fn lifted(entry: XRefEntry) -> XRefStreamEntry {
    if entry.free {
        XRefStreamEntry::Free { next_free_obj: entry.byte_offset, next_gen: entry.generation_number }
    } else {
        XRefStreamEntry::Uncompressed { offset: entry.byte_offset, gen: entry.generation_number }
    }
}

impl XRefEntry {
    /// The entry as a record of the unified representation.
    pub fn lift(&self) -> (r: XRefStreamEntry)
        ensures
            r == lifted(*self),
    {
        if self.free {
            XRefStreamEntry::Free {
                next_free_obj: self.byte_offset,
                next_gen: self.generation_number,
            }
        } else {
            XRefStreamEntry::Uncompressed {
                offset: self.byte_offset,
                gen: self.generation_number,
            }
        }
    }
}

/// The states of the automaton.
#[derive(Clone, Copy, Debug, PartialEq, Eq, Structural)]
pub enum TokenizerState {
    Start,
    Object,
    DictionaryKey,
    DictionaryValue,
    ListValue,
    Stream,
    StreamEnd,
    XRefSection,
    XRefEntry,
    DocumentEnd,
    Trailer,
}

/// What the tokenizer reads.
#[derive(Debug, Clone, PartialEq, Eq)]
pub enum PDFToken {
    Comment(Vec<u8>),
    ObjectHeader(PDFObjectHeader),
    ObjectEnd,
    ObjectReference(PDFObjectHeader),
    DictionaryStart,
    DictionaryEnd,
    Name(Vec<u8>),
    ArrayStart,
    ArrayEnd,
    String(Vec<u8>),
    HexString(Vec<u8>),
    Boolean(bool),
    Number(Decimal),
    StartXRef(u64),
    XRefSectionBegin,
    XRefSubSectionHeader(XRefHeader),
    XRefEntry(XRefEntry),
    Null,
    StreamBegin,
    StreamEnd,
    TrailerBegin,
    DocumentEnd,
}

/// A token as a mathematical value: byte strings are sequences.
pub enum TokenView {
    Comment(Seq<u8>),
    ObjectHeader(PDFObjectHeader),
    ObjectEnd,
    ObjectReference(PDFObjectHeader),
    DictionaryStart,
    DictionaryEnd,
    Name(Seq<u8>),
    ArrayStart,
    ArrayEnd,
    String(Seq<u8>),
    HexString(Seq<u8>),
    Boolean(bool),
    Number(Decimal),
    StartXRef(u64),
    XRefSectionBegin,
    XRefSubSectionHeader(XRefHeader),
    XRefEntry(XRefEntry),
    Null,
    StreamBegin,
    StreamEnd,
    TrailerBegin,
    DocumentEnd,
}

impl View for PDFToken {
    type V = TokenView;

    open spec fn view(&self) -> TokenView {
        match *self {
            PDFToken::Comment(text) => TokenView::Comment(text@),
            PDFToken::ObjectHeader(header) => TokenView::ObjectHeader(header),
            PDFToken::ObjectEnd => TokenView::ObjectEnd,
            PDFToken::ObjectReference(header) => TokenView::ObjectReference(header),
            PDFToken::DictionaryStart => TokenView::DictionaryStart,
            PDFToken::DictionaryEnd => TokenView::DictionaryEnd,
            PDFToken::Name(name) => TokenView::Name(name@),
            PDFToken::ArrayStart => TokenView::ArrayStart,
            PDFToken::ArrayEnd => TokenView::ArrayEnd,
            PDFToken::String(bytes) => TokenView::String(bytes@),
            PDFToken::HexString(bytes) => TokenView::HexString(bytes@),
            PDFToken::Boolean(value) => TokenView::Boolean(value),
            PDFToken::Number(value) => TokenView::Number(value),
            PDFToken::StartXRef(offset) => TokenView::StartXRef(offset),
            PDFToken::XRefSectionBegin => TokenView::XRefSectionBegin,
            PDFToken::XRefSubSectionHeader(header) => TokenView::XRefSubSectionHeader(header),
            PDFToken::XRefEntry(entry) => TokenView::XRefEntry(entry),
            PDFToken::Null => TokenView::Null,
            PDFToken::StreamBegin => TokenView::StreamBegin,
            PDFToken::StreamEnd => TokenView::StreamEnd,
            PDFToken::TrailerBegin => TokenView::TrailerBegin,
            PDFToken::DocumentEnd => TokenView::DocumentEnd,
        }
    }
}

/// The tokenizer as a mathematical value: the bytes of the document, the
/// position of the cursor in them, and the stack of states, top last.
pub struct TokenizerModel {
    pub input: Seq<u8>,
    pub pos: nat,
    pub stack: Seq<TokenizerState>,
}

/// What a call returned, and the tokenizer behind it.
pub struct Stepped<T> {
    pub result: Result<T, PdfError>,
    pub after: TokenizerModel,
}

/// The tokenizer behind a token: the cursor stands behind the token, and the
/// token has had its effect on the stack.
pub open spec fn advance(m: TokenizerModel, l: Lexeme) -> TokenizerModel {
    TokenizerModel { input: m.input, pos: l.end as nat, stack: apply_effect(m.stack, l.effect) }
}

/// One step of the automaton: the token at the cursor in the state on top of
/// the stack. A step that fails leaves the tokenizer as it was.
pub open spec fn next_step(m: TokenizerModel) -> Stepped<TokenView> {
    if m.stack.len() == 0 {
        Stepped {
            result: Err(PdfError::StateViolation { cause: Violation::EmptyStateStack }),
            after: m,
        }
    } else {
        match lex(m.input, m.pos as int, m.stack.last()) {
            Ok(l) => Stepped { result: Ok(l.token), after: advance(m, l) },
            Err(e) => Stepped { result: Err(e), after: m },
        }
    }
}

/// A look at the next token: what a step returns, with the tokenizer left
/// as it was.
pub open spec fn peek_step(m: TokenizerModel) -> Stepped<TokenView> {
    Stepped { result: next_step(m).result, after: m }
}

/// `r` with `prefix` written before its tokens.
pub open spec fn tokens_prefixed(prefix: Seq<TokenView>, r: Result<Seq<TokenView>, PdfError>) -> Result<
    Seq<TokenView>,
    PdfError,
> {
    match r {
        Ok(tokens) => Ok(prefix + tokens),
        Err(e) => Err(e),
    }
}

/// The next `count` tokens, or the error of the first step that fails.
pub open spec fn peek_tokens(m: TokenizerModel, count: nat) -> Result<Seq<TokenView>, PdfError>
    decreases count,
{
    if count == 0 {
        Ok(Seq::empty())
    } else {
        match next_step(m).result {
            Ok(token) => tokens_prefixed(
                seq![token],
                peek_tokens(next_step(m).after, (count - 1) as nat),
            ),
            Err(e) => Err(e),
        }
    }
}

/// The bytes of a stream body: `count` bytes from the cursor on, read in the
/// state `Stream`, which gives way to `StreamEnd`.
pub open spec fn stream_step(m: TokenizerModel, count: nat) -> Stepped<Seq<u8>> {
    if m.stack.len() == 0 || m.stack.last() != TokenizerState::Stream {
        Stepped {
            result: Err(PdfError::StateViolation { cause: Violation::NotInStreamBody }),
            after: m,
        }
    } else if m.pos + count > m.input.len() {
        Stepped { result: Err(PdfError::UnexpectedEnd { offset: m.input.len() as u64 }), after: m }
    } else {
        Stepped {
            result: Ok(m.input.subrange(m.pos as int, (m.pos + count) as int)),
            after: TokenizerModel {
                input: m.input,
                pos: m.pos + count,
                stack: popped(m.stack).push(TokenizerState::StreamEnd),
            },
        }
    }
}

/// `count` entries of a cross-reference table from `pos` on, and the
/// position behind the last of them.
pub open spec fn table_entries(s: Seq<u8>, pos: int, count: nat) -> Result<
    (Seq<XRefEntry>, int),
    PdfError,
>
    decreases count,
{
    if count == 0 {
        Ok((Seq::empty(), pos))
    } else {
        match lex(s, pos, TokenizerState::XRefEntry) {
            Ok(l) => match l.token {
                TokenView::XRefEntry(entry) => match table_entries(s, l.end, (count - 1) as nat) {
                    Ok((rest, end)) => Ok((seq![entry] + rest, end)),
                    Err(e) => Err(e),
                },
                _ => Err(PdfError::StateViolation { cause: Violation::NotInXRefTable }),
            },
            Err(e) => Err(e),
        }
    }
}

/// The entries of a cross-reference subsection: `count` entries from the
/// cursor on, read in the state `XRefEntry`; behind them that state and the
/// one below it leave the stack.
pub open spec fn table_step(m: TokenizerModel, count: nat) -> Stepped<Seq<XRefEntry>> {
    if m.stack.len() == 0 || m.stack.last() != TokenizerState::XRefEntry {
        Stepped {
            result: Err(PdfError::StateViolation { cause: Violation::NotInXRefTable }),
            after: m,
        }
    } else {
        match table_entries(m.input, m.pos as int, count) {
            Ok((entries, end)) => Stepped {
                result: Ok(entries),
                after: TokenizerModel {
                    input: m.input,
                    pos: end as nat,
                    stack: popped(popped(m.stack)),
                },
            },
            Err(e) => Stepped { result: Err(e), after: m },
        }
    }
}

pub open spec fn token_result(r: Result<PDFToken, PdfError>) -> Result<TokenView, PdfError> {
    match r {
        Ok(token) => Ok(token@),
        Err(e) => Err(e),
    }
}

pub open spec fn tokens_view(tokens: Seq<PDFToken>) -> Seq<TokenView> {
    tokens.map_values(|t: PDFToken| t@)
}

pub open spec fn tokens_result(r: Result<Vec<PDFToken>, PdfError>) -> Result<
    Seq<TokenView>,
    PdfError,
> {
    match r {
        Ok(tokens) => Ok(tokens_view(tokens@)),
        Err(e) => Err(e),
    }
}

pub open spec fn bytes_result(r: Result<Vec<u8>, PdfError>) -> Result<Seq<u8>, PdfError> {
    match r {
        Ok(bytes) => Ok(bytes@),
        Err(e) => Err(e),
    }
}

pub open spec fn entries_result(r: Result<Vec<XRefEntry>, PdfError>) -> Result<
    Seq<XRefEntry>,
    PdfError,
> {
    match r {
        Ok(entries) => Ok(entries@),
        Err(e) => Err(e),
    }
}

/// A source of tokens. Whatever holds the bytes, a tokenizer behaves as the
/// automaton over its model does.
pub trait PDFTokenize {
    spec fn model(&self) -> TokenizerModel;

    /// Reads the next token.
    fn next(&mut self) -> (r: Result<PDFToken, PdfError>)
        ensures
            token_result(r) == next_step(old(self).model()).result,
            final(self).model() == next_step(old(self).model()).after,
    ;

    /// The position of the cursor.
    fn get_offset(&mut self) -> (r: u64)
        ensures
            r == old(self).model().pos,
            final(self).model() == old(self).model(),
    ;

    /// Reads the `num_bytes` bytes of a stream body.
    fn get_stream(&mut self, num_bytes: usize) -> (r: Result<Vec<u8>, PdfError>)
        ensures
            bytes_result(r) == stream_step(old(self).model(), num_bytes as nat).result,
            final(self).model() == stream_step(old(self).model(), num_bytes as nat).after,
    ;

    /// Looks at the next token and leaves cursor and stack as they were.
    fn peak_next(&mut self) -> (r: Result<PDFToken, PdfError>)
        ensures
            token_result(r) == peek_step(old(self).model()).result,
            final(self).model() == old(self).model(),
    ;

    /// Looks at the next `num_tokens` tokens and leaves cursor and stack as
    /// they were.
    fn peak_multiple(&mut self, num_tokens: u32) -> (r: Result<Vec<PDFToken>, PdfError>)
        ensures
            tokens_result(r) == peek_tokens(old(self).model(), num_tokens as nat),
            final(self).model() == old(self).model(),
    ;

    /// Reads the `num_entries` entries of a cross-reference subsection.
    fn get_xref_table(&mut self, num_entries: u64) -> (r: Result<Vec<XRefEntry>, PdfError>)
        ensures
            entries_result(r) == table_step(old(self).model(), num_entries as nat).result,
            final(self).model() == table_step(old(self).model(), num_entries as nat).after,
    ;
}

/// A tokenizer over a byte source.
pub struct Tokenizer {
    state_stack: Vec<TokenizerState>,
    reader: ByteCursor,
}

impl View for Tokenizer {
    type V = TokenizerModel;

    closed spec fn view(&self) -> TokenizerModel {
        TokenizerModel { input: self.reader@.bytes, pos: self.reader@.pos, stack: self.state_stack@ }
    }
}

/// The first position from `pos` on that holds one of the bytes `stops`.
pub open spec fn until_end(s: Seq<u8>, pos: int, stops: Seq<u8>) -> int
    decreases s.len() - pos,
{
    if 0 <= pos < s.len() && !stops.contains(s[pos]) {
        until_end(s, pos + 1, stops)
    } else {
        pos
    }
}

/// The bytes that a literal string denotes when it is read from `pos` on: a
/// parenthesis that opens it there is passed over.
pub open spec fn literal_from(s: Seq<u8>, pos: int) -> Decoded {
    if 0 <= pos < s.len() && s[pos] == '(' as u8 {
        literal_body(s, pos + 1, 0)
    } else {
        literal_body(s, pos, 0)
    }
}

pub fn contains_byte(bytes: &Vec<u8>, b: u8) -> (r: bool)
    ensures
        r == bytes@.contains(b),
{
    let mut i: usize = 0;
    while i < bytes.len()
        invariant
            i <= bytes@.len(),
            forall|k: int| 0 <= k < i ==> bytes@[k] != b,
        decreases bytes@.len() - i,
    {
        if bytes[i] == b {
            return true;
        }
        i = i + 1;
    }
    false
}

pub fn apply_stack_effect(stack: &mut Vec<TokenizerState>, effect: StackEffect)
    ensures
        final(stack)@ == apply_effect(old(stack)@, effect),
{
    match effect {
        StackEffect::Keep => {},
        StackEffect::Push(state) => {
            stack.push(state);
        },
        StackEffect::Pop => {
            stack.pop();
        },
        StackEffect::Replace(state) => {
            stack.pop();
            stack.push(state);
        },
        StackEffect::CloseDictionary => {
            stack.pop();
            let len: usize = stack.len();
            if len > 0 && stack[len - 1] == TokenizerState::DictionaryValue {
                stack.pop();
            }
        },
    }
}

impl Tokenizer {
    /// A tokenizer at the cursor of `reader`, in the state `Start`.
    pub fn new(reader: ByteCursor) -> (r: Self)
        ensures
            r@ == (TokenizerModel {
                input: reader@.bytes,
                pos: reader@.pos,
                stack: seq![TokenizerState::Start],
            }),
    {
        let mut state_stack: Vec<TokenizerState> = Vec::new();
        state_stack.push(TokenizerState::Start);
        assert(state_stack@ =~= seq![TokenizerState::Start]);
        Tokenizer { state_stack, reader }
    }

    /// Reads one byte; `None` at the end of the input.
    pub fn next_char(&mut self) -> (r: Option<u8>)
        ensures
            final(self)@.input == old(self)@.input,
            final(self)@.stack == old(self)@.stack,
            old(self)@.pos < old(self)@.input.len() ==> r == Some(
                old(self)@.input[old(self)@.pos as int],
            ) && final(self)@.pos == old(self)@.pos + 1,
            old(self)@.pos >= old(self)@.input.len() ==> r is None && final(self)@.pos == old(
                self,
            )@.pos,
    {
        self.reader.read_byte()
    }

    /// Reads up to the first of the bytes `until_chars`, or to the end of the
    /// input. The byte that stops the reading is passed over unless
    /// `seek_back` holds.
    pub fn read_until(&mut self, until_chars: Vec<u8>, seek_back: bool) -> (r: Vec<u8>)
        ensures
            final(self)@.input == old(self)@.input,
            final(self)@.stack == old(self)@.stack,
            r@ == old(self)@.input.subrange(
                old(self)@.pos as int,
                until_end(old(self)@.input, old(self)@.pos as int, until_chars@),
            ),
            final(self)@.pos == ({
                let stop = until_end(old(self)@.input, old(self)@.pos as int, until_chars@);
                if stop < old(self)@.input.len() && !seek_back {
                    stop + 1
                } else {
                    stop
                }
            }),
    {
        let start: usize = self.reader.position();
        let input: &[u8] = self.reader.bytes();
        let len: usize = input.len();
        let mut i: usize = start;
        while i < len && !contains_byte(&until_chars, input[i])
            invariant
                start <= i <= len,
                len == input@.len(),
                until_end(input@, start as int, until_chars@) == until_end(
                    input@,
                    i as int,
                    until_chars@,
                ),
            decreases len - i,
        {
            i = i + 1;
        }
        let out: Vec<u8> = copy_range(input, start, i);
        let target: usize = if i < len && !seek_back {
            i + 1
        } else {
            i
        };
        self.reader.seek(target);
        out
    }

    /// Passes over white space and reads the number behind it. A failure
    /// leaves the cursor where it was.
    pub fn read_number(&mut self) -> (r: Result<Decimal, PdfError>)
        ensures
            final(self)@.input == old(self)@.input,
            final(self)@.stack == old(self)@.stack,
            match r {
                Ok(value) => number_at(
                    old(self)@.input,
                    skip_ws(old(self)@.input, old(self)@.pos as int),
                ) == Ok::<(Decimal, int), PdfError>((value, final(self)@.pos as int)),
                Err(e) => final(self)@.pos == old(self)@.pos && number_at(
                    old(self)@.input,
                    skip_ws(old(self)@.input, old(self)@.pos as int),
                ) == Err::<(Decimal, int), PdfError>(e),
            },
    {
        let at: usize = scan_run(self.reader.bytes(), self.reader.position(), ByteClass::Whitespace);
        match read_number_at(self.reader.bytes(), at) {
            Ok((value, end)) => {
                self.reader.seek(end);
                Ok(value)
            },
            Err(e) => Err(e),
        }
    }

    /// Passes over white space.
    pub fn consume_whitespace(&mut self)
        ensures
            final(self)@.input == old(self)@.input,
            final(self)@.stack == old(self)@.stack,
            final(self)@.pos == skip_ws(old(self)@.input, old(self)@.pos as int),
    {
        let at: usize = scan_run(self.reader.bytes(), self.reader.position(), ByteClass::Whitespace);
        self.reader.seek(at);
    }

    /// Reads the rest of the line, and passes over the byte that ends it.
    pub fn read_comment(&mut self) -> (r: Vec<u8>)
        ensures
            final(self)@.input == old(self)@.input,
            final(self)@.stack == old(self)@.stack,
            r@ == old(self)@.input.subrange(
                old(self)@.pos as int,
                until_end(old(self)@.input, old(self)@.pos as int, seq![LF, CR]),
            ),
            final(self)@.pos == ({
                let stop = until_end(old(self)@.input, old(self)@.pos as int, seq![LF, CR]);
                if stop < old(self)@.input.len() {
                    stop + 1
                } else {
                    stop
                }
            }),
    {
        let mut stops: Vec<u8> = Vec::new();
        stops.push(LF);
        stops.push(CR);
        assert(stops@ =~= seq![LF, CR]);
        self.read_until(stops, false)
    }

    /// Reads `num_chars` bytes. Where fewer are left, none is read.
    pub fn read_n_chars(&mut self, num_chars: u32) -> (r: Result<Vec<u8>, PdfError>)
        ensures
            final(self)@.input == old(self)@.input,
            final(self)@.stack == old(self)@.stack,
            match r {
                Ok(bytes) => old(self)@.pos + num_chars <= old(self)@.input.len() && bytes@ == old(
                    self,
                )@.input.subrange(old(self)@.pos as int, (old(self)@.pos + num_chars) as int)
                    && final(self)@.pos == old(self)@.pos + num_chars,
                Err(e) => old(self)@.pos + num_chars > old(self)@.input.len() && e
                    == (PdfError::UnexpectedEnd { offset: old(self)@.input.len() as u64 })
                    && final(self)@.pos == old(self)@.pos,
            },
    {
        let len: usize = self.reader.len();
        match self.reader.read_exact(num_chars as usize) {
            Some(bytes) => Ok(bytes),
            None => Err(PdfError::UnexpectedEnd { offset: len as u64 }),
        }
    }

    /// Reads the object header `N G obj` at the cursor. A failure leaves the
    /// cursor where it was.
    pub fn read_object_header(&mut self) -> (r: Result<PDFObjectHeader, PdfError>)
        ensures
            final(self)@.input == old(self)@.input,
            final(self)@.stack == old(self)@.stack,
            match r {
                Ok(header) => header_at(old(self)@.input, old(self)@.pos as int) == Ok::<
                    (PDFObjectHeader, int),
                    PdfError,
                >((header, final(self)@.pos as int)),
                Err(e) => final(self)@.pos == old(self)@.pos && header_at(
                    old(self)@.input,
                    old(self)@.pos as int,
                ) == Err::<(PDFObjectHeader, int), PdfError>(e),
            },
    {
        match read_header(self.reader.bytes(), self.reader.position()) {
            Ok((header, end)) => {
                self.reader.seek(end);
                Ok(header)
            },
            Err(e) => Err(e),
        }
    }

    /// Reads the reference `N G R` at the cursor. Where none is written
    /// there, the cursor stays and the error names its position.
    pub fn read_object_reference(&mut self) -> (r: Result<PDFToken, PdfError>)
        ensures
            final(self)@.input == old(self)@.input,
            final(self)@.stack == old(self)@.stack,
            match r {
                Ok(token) => {
                    &&& token@ matches TokenView::ObjectReference(header)
                    &&& reference_at(old(self)@.input, old(self)@.pos as int) == Some(
                        (header, final(self)@.pos as int),
                    )
                },
                Err(e) => final(self)@.pos == old(self)@.pos && e == (PdfError::BadNumber {
                    offset: old(self)@.pos as u64,
                }) && reference_at(old(self)@.input, old(self)@.pos as int) is None,
            },
    {
        let at: usize = self.reader.position();
        match read_reference(self.reader.bytes(), at) {
            Some((header, end)) => {
                self.reader.seek(end);
                Ok(PDFToken::ObjectReference(header))
            },
            None => Err(PdfError::BadNumber { offset: at as u64 }),
        }
    }

    /// The state on top of the stack.
    pub fn get_state(&mut self) -> (r: TokenizerState)
        requires
            old(self)@.stack.len() > 0,
        ensures
            final(self)@ == old(self)@,
            r == old(self)@.stack.last(),
    {
        self.state_stack[self.state_stack.len() - 1]
    }

    /// Puts a state on top of the stack.
    pub fn push_state(&mut self, state: TokenizerState)
        ensures
            final(self)@.input == old(self)@.input,
            final(self)@.pos == old(self)@.pos,
            final(self)@.stack == old(self)@.stack.push(state),
    {
        self.state_stack.push(state);
    }

    /// Takes the top state off the stack.
    pub fn pop_state(&mut self) -> (r: TokenizerState)
        requires
            old(self)@.stack.len() > 0,
        ensures
            final(self)@.input == old(self)@.input,
            final(self)@.pos == old(self)@.pos,
            final(self)@.stack == old(self)@.stack.drop_last(),
            r == old(self)@.stack.last(),
    {
        match self.state_stack.pop() {
            Some(state) => state,
            None => TokenizerState::Start,
        }
    }

    /// Reads a literal string from the cursor on. A failure leaves the cursor
    /// where it was.
    pub fn read_literal_string(&mut self) -> (r: Result<Vec<u8>, PdfError>)
        ensures
            final(self)@.input == old(self)@.input,
            final(self)@.stack == old(self)@.stack,
            match r {
                Ok(bytes) => literal_from(old(self)@.input, old(self)@.pos as int) == Ok::<
                    (Seq<u8>, int),
                    PdfError,
                >((bytes@, final(self)@.pos as int)),
                Err(e) => final(self)@.pos == old(self)@.pos && literal_from(
                    old(self)@.input,
                    old(self)@.pos as int,
                ) == Err::<(Seq<u8>, int), PdfError>(e),
            },
    {
        let at: usize = self.reader.position();
        let input: &[u8] = self.reader.bytes();
        let opened: bool = at < input.len() && input[at] == '(' as u8;
        let read = if opened {
            read_literal(input, at)
        } else {
            crate::strings::read_literal_body(input, at)
        };
        match read {
            Ok((bytes, end)) => {
                self.reader.seek(end);
                Ok(bytes)
            },
            Err(e) => Err(e),
        }
    }

    /// The bytes that hexadecimal digits denote. Where a byte is no
    /// hexadecimal digit, the error holds the index of the first such byte.
    pub fn hex_string_to_bytes(&mut self, hex_string: Vec<u8>) -> (r: Result<Vec<u8>, PdfError>)
        ensures
            final(self)@ == old(self)@,
            match r {
                Ok(bytes) => all_hex_digits(hex_string@) && bytes@ == hex_bytes(hex_string@),
                Err(e) => !all_hex_digits(hex_string@) && e == (PdfError::BadNumber {
                    offset: first_non_hex(hex_string@) as u64,
                }),
            },
    {
        match decode_hex(hex_string.as_slice()) {
            Ok(bytes) => Ok(bytes),
            Err(index) => Err(PdfError::BadNumber { offset: index as u64 }),
        }
    }
}

pub proof fn lemma_tokens_prefixed_twice(
    a: Seq<TokenView>,
    b: Seq<TokenView>,
    r: Result<Seq<TokenView>, PdfError>,
)
    ensures
        tokens_prefixed(a, tokens_prefixed(b, r)) == tokens_prefixed(a + b, r),
{
    match r {
        Ok(tokens) => {
            assert(a + (b + tokens) =~= (a + b) + tokens);
        },
        Err(e) => {},
    }
}

/// `r` with `prefix` written before its entries.
pub open spec fn entries_prefixed(
    prefix: Seq<XRefEntry>,
    r: Result<(Seq<XRefEntry>, int), PdfError>,
) -> Result<(Seq<XRefEntry>, int), PdfError> {
    match r {
        Ok((entries, end)) => Ok((prefix + entries, end)),
        Err(e) => Err(e),
    }
}

impl PDFTokenize for Tokenizer {
    open spec fn model(&self) -> TokenizerModel {
        self@
    }

    fn next(&mut self) -> (r: Result<PDFToken, PdfError>) {
        let depth: usize = self.state_stack.len();
        if depth == 0 {
            return Err(PdfError::StateViolation { cause: Violation::EmptyStateStack });
        }
        let state: TokenizerState = self.state_stack[depth - 1];
        match lex_at(self.reader.bytes(), self.reader.position(), state) {
            Ok(lexed) => {
                self.reader.seek(lexed.end);
                apply_stack_effect(&mut self.state_stack, lexed.effect);
                Ok(lexed.token)
            },
            Err(e) => Err(e),
        }
    }

    fn get_offset(&mut self) -> (r: u64) {
        self.reader.position() as u64
    }

    fn get_stream(&mut self, num_bytes: usize) -> (r: Result<Vec<u8>, PdfError>) {
        let depth: usize = self.state_stack.len();
        if depth == 0 || self.state_stack[depth - 1] != TokenizerState::Stream {
            return Err(PdfError::StateViolation { cause: Violation::NotInStreamBody });
        }
        let len: usize = self.reader.len();
        match self.reader.read_exact(num_bytes) {
            Some(bytes) => {
                self.state_stack.pop();
                self.state_stack.push(TokenizerState::StreamEnd);
                Ok(bytes)
            },
            None => Err(PdfError::UnexpectedEnd { offset: len as u64 }),
        }
    }

    fn peak_next(&mut self) -> (r: Result<PDFToken, PdfError>) {
        let depth: usize = self.state_stack.len();
        if depth == 0 {
            return Err(PdfError::StateViolation { cause: Violation::EmptyStateStack });
        }
        let state: TokenizerState = self.state_stack[depth - 1];
        match lex_at(self.reader.bytes(), self.reader.position(), state) {
            Ok(lexed) => Ok(lexed.token),
            Err(e) => Err(e),
        }
    }

    fn peak_multiple(&mut self, num_tokens: u32) -> (r: Result<Vec<PDFToken>, PdfError>) {
        let mut stack: Vec<TokenizerState> = self.state_stack.clone();
        let mut at: usize = self.reader.position();
        let mut tokens: Vec<PDFToken> = Vec::new();
        let mut count: u32 = 0;
        let ghost start = self@;
        assert(tokens_view(tokens@) =~= Seq::<TokenView>::empty());
        proof {
            lemma_tokens_prefixed_twice(
                Seq::empty(),
                Seq::empty(),
                peek_tokens(start, num_tokens as nat),
            );
            match peek_tokens(start, num_tokens as nat) {
                Ok(found) => {
                    assert(Seq::<TokenView>::empty() + found =~= found);
                },
                Err(e) => {},
            }
        }
        while count < num_tokens
            invariant
                count <= num_tokens,
                start == self@,
                tokens_prefixed(
                    tokens_view(tokens@),
                    peek_tokens(
                        TokenizerModel { input: start.input, pos: at as nat, stack: stack@ },
                        (num_tokens - count) as nat,
                    ),
                ) == peek_tokens(start, num_tokens as nat),
            decreases num_tokens - count,
        {
            let ghost here = TokenizerModel { input: start.input, pos: at as nat, stack: stack@ };
            let ghost before = tokens_view(tokens@);
            let depth: usize = stack.len();
            if depth == 0 {
                return Err(PdfError::StateViolation { cause: Violation::EmptyStateStack });
            }
            let state: TokenizerState = stack[depth - 1];
            match lex_at(self.reader.bytes(), at, state) {
                Ok(lexed) => {
                    at = lexed.end;
                    apply_stack_effect(&mut stack, lexed.effect);
                    proof {
                        lemma_tokens_prefixed_twice(
                            before,
                            seq![lexed.token@],
                            peek_tokens(next_step(here).after, (num_tokens - count - 1) as nat),
                        );
                    }
                    tokens.push(lexed.token);
                    assert(tokens_view(tokens@) =~= before + seq![lexed.token@]);
                },
                Err(e) => {
                    return Err(e);
                },
            }
            count = count + 1;
        }
        proof {
            assert(tokens_view(tokens@) + Seq::<TokenView>::empty() =~= tokens_view(tokens@));
        }
        Ok(tokens)
    }

    fn get_xref_table(&mut self, num_entries: u64) -> (r: Result<Vec<XRefEntry>, PdfError>) {
        let depth: usize = self.state_stack.len();
        if depth == 0 || self.state_stack[depth - 1] != TokenizerState::XRefEntry {
            return Err(PdfError::StateViolation { cause: Violation::NotInXRefTable });
        }
        let ghost start = self@;
        let mut at: usize = self.reader.position();
        let mut entries: Vec<XRefEntry> = Vec::new();
        let mut count: u64 = 0;
        proof {
            match table_entries(start.input, at as int, num_entries as nat) {
                Ok((found, end)) => {
                    assert(Seq::<XRefEntry>::empty() + found =~= found);
                },
                Err(e) => {},
            }
        }
        while count < num_entries
            invariant
                count <= num_entries,
                start == self@,
                start.stack.len() > 0,
                start.stack.last() == TokenizerState::XRefEntry,
                at <= start.input.len(),
                entries_prefixed(
                    entries@,
                    table_entries(start.input, at as int, (num_entries - count) as nat),
                ) == table_entries(start.input, start.pos as int, num_entries as nat),
            decreases num_entries - count,
        {
            let ghost before = entries@;
            match lex_at(self.reader.bytes(), at, TokenizerState::XRefEntry) {
                Ok(lexed) => {
                    match lexed.token {
                        PDFToken::XRefEntry(entry) => {
                            proof {
                                match table_entries(
                                    start.input,
                                    lexed.end as int,
                                    (num_entries - count - 1) as nat,
                                ) {
                                    Ok((rest, end)) => {
                                        assert(before + (seq![entry] + rest) =~= before.push(entry)
                                            + rest);
                                    },
                                    Err(e) => {},
                                }
                            }
                            entries.push(entry);
                            at = lexed.end;
                        },
                        _ => {
                            return Err(
                                PdfError::StateViolation { cause: Violation::NotInXRefTable },
                            );
                        },
                    }
                },
                Err(e) => {
                    assert(table_entries(
                        start.input,
                        at as int,
                        (num_entries - count) as nat,
                    ) == Err::<(Seq<XRefEntry>, int), PdfError>(e));
                    return Err(e);
                },
            }
            count = count + 1;
        }
        proof {
            assert(entries@ + Seq::<XRefEntry>::empty() =~= entries@);
        }
        self.reader.seek(at);
        self.state_stack.pop();
        self.state_stack.pop();
        Ok(entries)
    }
}

/// A look at the next token followed by a step gives the token of the look,
/// and leaves the cursor and the stack where the step alone leaves them.
pub proof fn lemma_peek_then_next(m: TokenizerModel)
    ensures
        peek_step(m).result == next_step(m).result,
        next_step(peek_step(m).after) == next_step(m),
{
}

/// The tokenizer behind a number that is read where the cursor stands, with
/// no reference tried first.
pub open spec fn number_step(m: TokenizerModel) -> Stepped<TokenView> {
    let at = skip_ws(m.input, m.pos as int);
    match number_at(m.input, at) {
        Ok((value, end)) => Stepped {
            result: Ok(TokenView::Number(value)),
            after: TokenizerModel {
                input: m.input,
                pos: end as nat,
                stack: apply_effect(m.stack, value_done(m.stack.last())),
            },
        },
        Err(e) => Stepped { result: Err(e), after: m },
    }
}

/// Where a value is expected and a number starts at the cursor but no
/// reference `N G R` is written there, a step reads the number as if no
/// reference had been tried: the cursor ends behind the numeric literal, and
/// the stack is the one that the number alone leaves.
pub proof fn lemma_failed_reference_leaves_number(m: TokenizerModel)
    requires
        m.stack.len() > 0,
        m.stack.last() == TokenizerState::DictionaryValue || m.stack.last()
            == TokenizerState::ListValue,
        skip_ws(m.input, m.pos as int) < m.input.len(),
        crate::lexer::starts_number(m.input[skip_ws(m.input, m.pos as int)]),
        reference_at(m.input, skip_ws(m.input, m.pos as int)) is None,
    ensures
        next_step(m) == number_step(m),
        next_step(m).result is Ok ==> next_step(m).after.pos == word_end(
            m.input,
            skip_ws(m.input, m.pos as int),
        ),
{
    let at = skip_ws(m.input, m.pos as int);
    crate::scan::lemma_run_end(m.input, m.pos as int, ByteClass::Whitespace);
    crate::scan::lemma_run_end(m.input, at, ByteClass::Regular);
}

/// Whether the regular expression `pattern` matches somewhere in `text`,
/// each byte of which is read as the character of the same number; `None`
/// where `pattern` is no regular expression.
pub uninterp spec fn regex_match(pattern: Seq<char>, text: Seq<u8>) -> Option<bool>;

/// `regex::Regex::new` followed by `regex::Regex::is_match`: compiles
/// `pattern` and searches `text` for a match. The bytes of `text` are handed
/// over as the characters U+0000 to U+00FF. The contract only gives the
/// outcome its name: it is a function of the pattern and the text.
#[verifier::external_body]
fn regex_is_match(pattern: &str, text: &[u8]) -> (r: Option<bool>)
    ensures
        r == regex_match(pattern@, text@),
{
    let haystack: String = text.iter().map(|b| char::from(*b)).collect();
    match regex::Regex::new(pattern) {
        Ok(compiled) => Some(compiled.is_match(&haystack)),
        Err(_) => None,
    }
}

/// Whether `text` matches `pattern`.
pub open spec fn matches_pattern(pattern: Seq<char>, text: Seq<u8>) -> bool {
    regex_match(pattern, text) == Some(true)
}

/// What the outcome of a match says of the text.
pub fn pattern_holds(outcome: Option<bool>) -> (r: bool)
    ensures
        r == (outcome == Some(true)),
{
    match outcome {
        Some(found) => found,
        None => false,
    }
}

pub open spec fn positive_int_pattern() -> Seq<char> {
    "^\\d+$"@
}

pub open spec fn object_pattern() -> Seq<char> {
    "^\\d+\\s\\d+\\sobj$"@
}

pub open spec fn int_pattern() -> Seq<char> {
    "^-?\\d+$"@
}

pub open spec fn float_pattern() -> Seq<char> {
    "^-?\\d+(\\.\\d+)?$"@
}

pub open spec fn version_pattern() -> Seq<char> {
    "^PDF-(\\d\\.\\d)$"@
}

pub open spec fn name_pattern() -> Seq<char> {
    "/.+"@
}

/// The shapes of text that the engine asks about.
pub trait PDFTokenPatterns {
    fn is_positive_int(&self) -> bool;

    fn is_int(&self) -> bool;

    fn is_float(&self) -> bool;

    fn is_version(&self) -> bool;

    fn is_name(&self) -> bool;

    fn is_comment(&self) -> bool;

    fn is_object(&self) -> bool;
}

impl PDFTokenPatterns for Vec<u8> {
    fn is_positive_int(&self) -> (r: bool)
        ensures
            r == matches_pattern(positive_int_pattern(), self@),
    {
        pattern_holds(regex_is_match("^\\d+$", self.as_slice()))
    }

    fn is_int(&self) -> (r: bool)
        ensures
            r == matches_pattern(int_pattern(), self@),
    {
        pattern_holds(regex_is_match("^-?\\d+$", self.as_slice()))
    }

    fn is_float(&self) -> (r: bool)
        ensures
            r == matches_pattern(float_pattern(), self@),
    {
        pattern_holds(regex_is_match("^-?\\d+(\\.\\d+)?$", self.as_slice()))
    }

    fn is_version(&self) -> (r: bool)
        ensures
            r == matches_pattern(version_pattern(), self@),
    {
        pattern_holds(regex_is_match("^PDF-(\\d\\.\\d)$", self.as_slice()))
    }

    fn is_name(&self) -> (r: bool)
        ensures
            r == matches_pattern(name_pattern(), self@),
    {
        pattern_holds(regex_is_match("/.+", self.as_slice()))
    }

    fn is_comment(&self) -> (r: bool)
        ensures
            r == (self@.len() > 0 && self@[0] == '%' as u8),
    {
        self.len() > 0 && self[0] == '%' as u8
    }

    fn is_object(&self) -> (r: bool)
        ensures
            r == matches_pattern(object_pattern(), self@),
    {
        pattern_holds(regex_is_match("^\\d+\\s\\d+\\sobj$", self.as_slice()))
    }
}

pub open spec fn token_kind(token: TokenView) -> crate::error::TokenKind {
    match token {
        TokenView::Comment(_) => crate::error::TokenKind::Comment,
        TokenView::ObjectHeader(_) => crate::error::TokenKind::ObjectHeader,
        TokenView::ObjectEnd => crate::error::TokenKind::ObjectEnd,
        TokenView::ObjectReference(_) => crate::error::TokenKind::ObjectReference,
        TokenView::DictionaryStart => crate::error::TokenKind::DictionaryStart,
        TokenView::DictionaryEnd => crate::error::TokenKind::DictionaryEnd,
        TokenView::Name(_) => crate::error::TokenKind::Name,
        TokenView::ArrayStart => crate::error::TokenKind::ArrayStart,
        TokenView::ArrayEnd => crate::error::TokenKind::ArrayEnd,
        TokenView::String(_) => crate::error::TokenKind::String,
        TokenView::HexString(_) => crate::error::TokenKind::HexString,
        TokenView::Boolean(_) => crate::error::TokenKind::Boolean,
        TokenView::Number(_) => crate::error::TokenKind::Number,
        TokenView::StartXRef(_) => crate::error::TokenKind::StartXRef,
        TokenView::XRefSectionBegin => crate::error::TokenKind::XRefSectionBegin,
        TokenView::XRefSubSectionHeader(_) => crate::error::TokenKind::XRefSubSectionHeader,
        TokenView::XRefEntry(_) => crate::error::TokenKind::XRefEntry,
        TokenView::Null => crate::error::TokenKind::Null,
        TokenView::StreamBegin => crate::error::TokenKind::StreamBegin,
        TokenView::StreamEnd => crate::error::TokenKind::StreamEnd,
        TokenView::TrailerBegin => crate::error::TokenKind::TrailerBegin,
        TokenView::DocumentEnd => crate::error::TokenKind::DocumentEnd,
    }
}

impl PDFToken {
    /// What the token is, without what it holds.
    pub fn kind(&self) -> (r: crate::error::TokenKind)
        ensures
            r == token_kind(self@),
    {
        match self {
            PDFToken::Comment(_) => crate::error::TokenKind::Comment,
            PDFToken::ObjectHeader(_) => crate::error::TokenKind::ObjectHeader,
            PDFToken::ObjectEnd => crate::error::TokenKind::ObjectEnd,
            PDFToken::ObjectReference(_) => crate::error::TokenKind::ObjectReference,
            PDFToken::DictionaryStart => crate::error::TokenKind::DictionaryStart,
            PDFToken::DictionaryEnd => crate::error::TokenKind::DictionaryEnd,
            PDFToken::Name(_) => crate::error::TokenKind::Name,
            PDFToken::ArrayStart => crate::error::TokenKind::ArrayStart,
            PDFToken::ArrayEnd => crate::error::TokenKind::ArrayEnd,
            PDFToken::String(_) => crate::error::TokenKind::String,
            PDFToken::HexString(_) => crate::error::TokenKind::HexString,
            PDFToken::Boolean(_) => crate::error::TokenKind::Boolean,
            PDFToken::Number(_) => crate::error::TokenKind::Number,
            PDFToken::StartXRef(_) => crate::error::TokenKind::StartXRef,
            PDFToken::XRefSectionBegin => crate::error::TokenKind::XRefSectionBegin,
            PDFToken::XRefSubSectionHeader(_) => crate::error::TokenKind::XRefSubSectionHeader,
            PDFToken::XRefEntry(_) => crate::error::TokenKind::XRefEntry,
            PDFToken::Null => crate::error::TokenKind::Null,
            PDFToken::StreamBegin => crate::error::TokenKind::StreamBegin,
            PDFToken::StreamEnd => crate::error::TokenKind::StreamEnd,
            PDFToken::TrailerBegin => crate::error::TokenKind::TrailerBegin,
            PDFToken::DocumentEnd => crate::error::TokenKind::DocumentEnd,
        }
    }
}

} // verus!
