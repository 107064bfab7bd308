//! The lexical grammar: which token stands at a position of the input in a
//! state of the automaton, where it ends, and what it does to the state stack.
use crate::error::PdfError;
use crate::number::{decimal_value, parse_decimal, parse_unsigned, unsigned_value};
use crate::scan::{
    in_class, is_digit, is_digit_byte, is_whitespace, is_whitespace_byte, lemma_run_end, run_end,
    scan_run, ByteClass, CR, LF, SP,
};
use crate::strings::{decode_hex, hex_bytes, literal_at, literal_body, read_literal};
use crate::tokenizer::{
    PDFObjectHeader, PDFToken, TokenView, TokenizerState, XRefEntry, XRefHeader,
};
use vstd::prelude::*;
use vstd::slice::slice_subrange;

verus! {

/// The words of the grammar.
#[derive(Clone, Copy, Debug, PartialEq, Eq, Structural)]
pub enum Keyword {
    StartXRef,
    XRef,
    Trailer,
    Stream,
    EndStream,
    EndObj,
    Obj,
    True,
    False,
    Null,
    EndOfFile,
}

pub open spec fn keyword_bytes(k: Keyword) -> Seq<u8> {
    match k {
        Keyword::StartXRef => seq![
            's' as u8,
            't' as u8,
            'a' as u8,
            'r' as u8,
            't' as u8,
            'x' as u8,
            'r' as u8,
            'e' as u8,
            'f' as u8,
        ],
        Keyword::XRef => seq!['x' as u8, 'r' as u8, 'e' as u8, 'f' as u8],
        Keyword::Trailer => seq![
            't' as u8,
            'r' as u8,
            'a' as u8,
            'i' as u8,
            'l' as u8,
            'e' as u8,
            'r' as u8,
        ],
        Keyword::Stream => seq!['s' as u8, 't' as u8, 'r' as u8, 'e' as u8, 'a' as u8, 'm' as u8],
        Keyword::EndStream => seq![
            'e' as u8,
            'n' as u8,
            'd' as u8,
            's' as u8,
            't' as u8,
            'r' as u8,
            'e' as u8,
            'a' as u8,
            'm' as u8,
        ],
        Keyword::EndObj => seq!['e' as u8, 'n' as u8, 'd' as u8, 'o' as u8, 'b' as u8, 'j' as u8],
        Keyword::Obj => seq!['o' as u8, 'b' as u8, 'j' as u8],
        Keyword::True => seq!['t' as u8, 'r' as u8, 'u' as u8, 'e' as u8],
        Keyword::False => seq!['f' as u8, 'a' as u8, 'l' as u8, 's' as u8, 'e' as u8],
        Keyword::Null => seq!['n' as u8, 'u' as u8, 'l' as u8, 'l' as u8],
        Keyword::EndOfFile => seq!['%' as u8, 'E' as u8, 'O' as u8, 'F' as u8],
    }
}

/// Whether `bytes` spells the keyword.
pub fn spells(bytes: &[u8], k: Keyword) -> (r: bool)
    ensures
        r == (bytes@ == keyword_bytes(k)),
{
    match k {
        Keyword::StartXRef => {
            let w: [u8; 9] = [
                's' as u8,
                't' as u8,
                'a' as u8,
                'r' as u8,
                't' as u8,
                'x' as u8,
                'r' as u8,
                'e' as u8,
                'f' as u8,
            ];
            assert(w@ =~= keyword_bytes(k));
            crate::scan::bytes_eq(bytes, &w)
        },
        Keyword::XRef => {
            let w: [u8; 4] = ['x' as u8, 'r' as u8, 'e' as u8, 'f' as u8];
            assert(w@ =~= keyword_bytes(k));
            crate::scan::bytes_eq(bytes, &w)
        },
        Keyword::Trailer => {
            let w: [u8; 7] = [
                't' as u8,
                'r' as u8,
                'a' as u8,
                'i' as u8,
                'l' as u8,
                'e' as u8,
                'r' as u8,
            ];
            assert(w@ =~= keyword_bytes(k));
            crate::scan::bytes_eq(bytes, &w)
        },
        Keyword::Stream => {
            let w: [u8; 6] = ['s' as u8, 't' as u8, 'r' as u8, 'e' as u8, 'a' as u8, 'm' as u8];
            assert(w@ =~= keyword_bytes(k));
            crate::scan::bytes_eq(bytes, &w)
        },
        Keyword::EndStream => {
            let w: [u8; 9] = [
                'e' as u8,
                'n' as u8,
                'd' as u8,
                's' as u8,
                't' as u8,
                'r' as u8,
                'e' as u8,
                'a' as u8,
                'm' as u8,
            ];
            assert(w@ =~= keyword_bytes(k));
            crate::scan::bytes_eq(bytes, &w)
        },
        Keyword::EndObj => {
            let w: [u8; 6] = ['e' as u8, 'n' as u8, 'd' as u8, 'o' as u8, 'b' as u8, 'j' as u8];
            assert(w@ =~= keyword_bytes(k));
            crate::scan::bytes_eq(bytes, &w)
        },
        Keyword::Obj => {
            let w: [u8; 3] = ['o' as u8, 'b' as u8, 'j' as u8];
            assert(w@ =~= keyword_bytes(k));
            crate::scan::bytes_eq(bytes, &w)
        },
        Keyword::True => {
            let w: [u8; 4] = ['t' as u8, 'r' as u8, 'u' as u8, 'e' as u8];
            assert(w@ =~= keyword_bytes(k));
            crate::scan::bytes_eq(bytes, &w)
        },
        Keyword::False => {
            let w: [u8; 5] = ['f' as u8, 'a' as u8, 'l' as u8, 's' as u8, 'e' as u8];
            assert(w@ =~= keyword_bytes(k));
            crate::scan::bytes_eq(bytes, &w)
        },
        Keyword::Null => {
            let w: [u8; 4] = ['n' as u8, 'u' as u8, 'l' as u8, 'l' as u8];
            assert(w@ =~= keyword_bytes(k));
            crate::scan::bytes_eq(bytes, &w)
        },
        Keyword::EndOfFile => {
            let w: [u8; 4] = ['%' as u8, 'E' as u8, 'O' as u8, 'F' as u8];
            assert(w@ =~= keyword_bytes(k));
            crate::scan::bytes_eq(bytes, &w)
        },
    }
}

/// The first position from `pos` on that holds no white space.
pub open spec fn skip_ws(s: Seq<u8>, pos: int) -> int {
    run_end(s, pos, ByteClass::Whitespace)
}

/// Where the word at `pos` ends: at white space, a delimiter or the end.
pub open spec fn word_end(s: Seq<u8>, pos: int) -> int {
    run_end(s, pos, ByteClass::Regular)
}

/// The word at `pos`.
pub open spec fn word_at(s: Seq<u8>, pos: int) -> Seq<u8> {
    s.subrange(pos, word_end(s, pos))
}

/// The error for what stands at `pos` where the grammar asks for something else.
pub open spec fn unexpected(s: Seq<u8>, pos: int, state: TokenizerState) -> PdfError {
    if 0 <= pos < s.len() {
        PdfError::UnexpectedByte { offset: pos as u64, state, byte: s[pos] }
    } else {
        PdfError::UnexpectedEnd { offset: pos as u64 }
    }
}

pub fn unexpected_at(input: &[u8], pos: usize, state: TokenizerState) -> (e: PdfError)
    ensures
        e == unexpected(input@, pos as int, state),
{
    if pos < input.len() {
        PdfError::UnexpectedByte { offset: pos as u64, state, byte: input[pos] }
    } else {
        PdfError::UnexpectedEnd { offset: pos as u64 }
    }
}

/// The word at `pos`, as a slice of the input, and where it ends.
pub fn read_word(input: &[u8], pos: usize) -> (r: (&[u8], usize))
    requires
        pos <= input@.len(),
    ensures
        r.0@ == word_at(input@, pos as int),
        r.1 == word_end(input@, pos as int),
        pos <= r.1 <= input@.len(),
{
    let end: usize = scan_run(input, pos, ByteClass::Regular);
    (slice_subrange(input, pos, end), end)
}

/// The unsigned integer written at `pos`, and where its digits end.
pub open spec fn unsigned_at(s: Seq<u8>, pos: int) -> Option<(u64, int)> {
    match unsigned_value(s.subrange(pos, run_end(s, pos, ByteClass::Digit))) {
        Some(value) => Some((value, run_end(s, pos, ByteClass::Digit))),
        None => None,
    }
}

pub fn read_unsigned(input: &[u8], pos: usize) -> (r: Option<(u64, usize)>)
    requires
        pos <= input@.len(),
    ensures
        r matches Some((value, end)) ==> unsigned_at(input@, pos as int) == Some(
            (value, end as int),
        ) && pos < end <= input@.len(),
        r is None ==> unsigned_at(input@, pos as int) is None,
{
    let end: usize = scan_run(input, pos, ByteClass::Digit);
    match parse_unsigned(slice_subrange(input, pos, end)) {
        Some(value) => Some((value, end)),
        None => None,
    }
}

/// Two unsigned integers with white space behind each, and the position
/// behind that white space.
pub open spec fn two_numbers_at(s: Seq<u8>, pos: int) -> Option<(u64, u64, int)> {
    match unsigned_at(s, pos) {
        Some((first, first_end)) => if skip_ws(s, first_end) == first_end {
            None
        } else {
            match unsigned_at(s, skip_ws(s, first_end)) {
                Some((second, second_end)) => if skip_ws(s, second_end) == second_end {
                    None
                } else {
                    Some((first, second, skip_ws(s, second_end)))
                },
                None => None,
            }
        },
        None => None,
    }
}

pub fn read_two_numbers(input: &[u8], pos: usize) -> (r: Option<(u64, u64, usize)>)
    requires
        pos <= input@.len(),
    ensures
        r matches Some((first, second, end)) ==> two_numbers_at(input@, pos as int) == Some(
            (first, second, end as int),
        ) && pos < end <= input@.len(),
        r is None ==> two_numbers_at(input@, pos as int) is None,
{
    let (first, first_end) = match read_unsigned(input, pos) {
        Some(pair) => pair,
        None => {
            return None;
        },
    };
    let gap: usize = scan_run(input, first_end, ByteClass::Whitespace);
    if gap == first_end {
        return None;
    }
    let (second, second_end) = match read_unsigned(input, gap) {
        Some(pair) => pair,
        None => {
            return None;
        },
    };
    let end: usize = scan_run(input, second_end, ByteClass::Whitespace);
    if end == second_end {
        return None;
    }
    Some((first, second, end))
}

/// The reference `N G R` written at `pos`, and where it ends.
pub open spec fn reference_at(s: Seq<u8>, pos: int) -> Option<(PDFObjectHeader, int)> {
    match two_numbers_at(s, pos) {
        Some((number, generation, mark)) => if mark < s.len() && s[mark] == 'R' as u8 {
            Some(
                (
                    PDFObjectHeader { object_number: number, generation_number: generation },
                    mark + 1,
                ),
            )
        } else {
            None
        },
        None => None,
    }
}

pub fn read_reference(input: &[u8], pos: usize) -> (r: Option<(PDFObjectHeader, usize)>)
    requires
        pos <= input@.len(),
    ensures
        r matches Some((header, end)) ==> reference_at(input@, pos as int) == Some(
            (header, end as int),
        ) && pos < end <= input@.len(),
        r is None ==> reference_at(input@, pos as int) is None,
{
    match read_two_numbers(input, pos) {
        Some((number, generation, mark)) => {
            if mark < input.len() && input[mark] == 'R' as u8 {
                Some(
                    (
                        PDFObjectHeader { object_number: number, generation_number: generation },
                        mark + 1,
                    ),
                )
            } else {
                None
            }
        },
        None => None,
    }
}

/// The object header `N G obj` written at `pos`, and where it ends.
pub open spec fn header_at(s: Seq<u8>, pos: int) -> Result<(PDFObjectHeader, int), PdfError> {
    match two_numbers_at(s, pos) {
        Some((number, generation, mark)) => if crate::scan::has_bytes_at(
            s,
            mark,
            keyword_bytes(Keyword::Obj),
        ) {
            Ok(
                (
                    PDFObjectHeader { object_number: number, generation_number: generation },
                    mark + 3,
                ),
            )
        } else {
            Err(unexpected(s, mark, TokenizerState::Start))
        },
        None => Err(PdfError::BadNumber { offset: pos as u64 }),
    }
}

pub fn read_header(input: &[u8], pos: usize) -> (r: Result<(PDFObjectHeader, usize), PdfError>)
    requires
        pos <= input@.len(),
    ensures
        match r {
            Ok((header, end)) => header_at(input@, pos as int) == Ok::<
                (PDFObjectHeader, int),
                PdfError,
            >((header, end as int)) && pos < end <= input@.len(),
            Err(e) => header_at(input@, pos as int) == Err::<(PDFObjectHeader, int), PdfError>(e),
        },
{
    match read_two_numbers(input, pos) {
        Some((number, generation, mark)) => {
            let word: [u8; 3] = ['o' as u8, 'b' as u8, 'j' as u8];
            assert(word@ =~= keyword_bytes(Keyword::Obj));
            let len: usize = input.len();
            if crate::scan::starts_with_at(input, mark, &word) {
                Ok(
                    (
                        PDFObjectHeader { object_number: number, generation_number: generation },
                        mark + 3,
                    ),
                )
            } else {
                Err(unexpected_at(input, mark, TokenizerState::Start))
            }
        },
        None => Err(PdfError::BadNumber { offset: pos as u64 }),
    }
}

/// What a token does to the state stack.
#[derive(Clone, Copy, Debug, PartialEq, Eq, Structural)]
pub enum StackEffect {
    /// Nothing.
    Keep,
    /// A state is put on top.
    Push(TokenizerState),
    /// The top state leaves.
    Pop,
    /// The top state gives way to another.
    Replace(TokenizerState),
    /// The top state leaves, and with it a `DictionaryValue` state below it:
    /// a dictionary that is a dictionary's value completes that value.
    CloseDictionary,
}

/// `stack` without its top state; an empty stack stays empty.
pub open spec fn popped(stack: Seq<TokenizerState>) -> Seq<TokenizerState> {
    if stack.len() > 0 {
        stack.drop_last()
    } else {
        stack
    }
}

pub open spec fn apply_effect(stack: Seq<TokenizerState>, effect: StackEffect) -> Seq<
    TokenizerState,
> {
    match effect {
        StackEffect::Keep => stack,
        StackEffect::Push(state) => stack.push(state),
        StackEffect::Pop => popped(stack),
        StackEffect::Replace(state) => popped(stack).push(state),
        StackEffect::CloseDictionary => if popped(stack).len() > 0 && popped(stack).last()
            == TokenizerState::DictionaryValue {
            popped(popped(stack))
        } else {
            popped(stack)
        },
    }
}

/// A token in the input: what it is, where it ends, what it does to the stack.
pub struct Lexeme {
    pub token: TokenView,
    pub end: int,
    pub effect: StackEffect,
}

pub struct Lexed {
    pub token: PDFToken,
    pub end: usize,
    pub effect: StackEffect,
}

impl View for Lexed {
    type V = Lexeme;

    open spec fn view(&self) -> Lexeme {
        Lexeme { token: self.token@, end: self.end as int, effect: self.effect }
    }
}

pub open spec fn lexed_view(r: Result<Lexed, PdfError>) -> Result<Lexeme, PdfError> {
    match r {
        Ok(lexed) => Ok(lexed@),
        Err(e) => Err(e),
    }
}

/// How many bytes of `s` are left when the white space at its end is cut off.
pub open spec fn trimmed_len(s: Seq<u8>) -> nat
    decreases s.len(),
{
    if s.len() > 0 && is_whitespace(s.last()) {
        trimmed_len(s.drop_last())
    } else {
        s.len()
    }
}

/// `s` without the white space at its two ends.
pub open spec fn trim(s: Seq<u8>) -> Seq<u8> {
    s.take(trimmed_len(s) as int).skip(skip_ws(s.take(trimmed_len(s) as int), 0))
}

/// The bounds in `input` of `input[start..end]` trimmed.
pub fn trim_range(input: &[u8], start: usize, end: usize) -> (r: (usize, usize))
    requires
        start <= end <= input@.len(),
    ensures
        start <= r.0 <= r.1 <= end,
        input@.subrange(r.0 as int, r.1 as int) == trim(input@.subrange(start as int, end as int)),
{
    let ghost line = input@.subrange(start as int, end as int);
    let mut stop: usize = end;
    assert(line.take(end - start) =~= line);
    while stop > start && is_whitespace_byte(input[stop - 1])
        invariant
            start <= stop <= end <= input@.len(),
            line == input@.subrange(start as int, end as int),
            trimmed_len(line) == trimmed_len(line.take(stop - start)),
        decreases stop,
    {
        proof {
            let t = line.take(stop - start);
            assert(t.last() == input@[stop - 1]);
            assert(t.drop_last() =~= line.take(stop - start - 1));
        }
        stop = stop - 1;
    }
    proof {
        let t = line.take(stop - start);
        if stop > start {
            assert(t.last() == input@[stop - 1]);
        }
        assert(trimmed_len(line) == stop - start);
    }
    let ghost kept = line.take(stop - start);
    let mut from: usize = start;
    while from < stop && is_whitespace_byte(input[from])
        invariant
            start <= from <= stop <= end <= input@.len(),
            line == input@.subrange(start as int, end as int),
            kept == line.take(stop - start),
            skip_ws(kept, 0) == skip_ws(kept, from - start),
        decreases stop - from,
    {
        assert(kept[from - start] == input@[from as int]);
        from = from + 1;
    }
    proof {
        if from < stop {
            assert(kept[from - start] == input@[from as int]);
        }
        assert(skip_ws(kept, 0) == from - start);
        assert(kept.skip(from - start) =~= input@.subrange(from as int, stop as int));
    }
    (from, stop)
}

/// The comment whose `%` stands at `pos`: the rest of the line, trimmed.
/// The comment `%%EOF` ends the document. The token ends behind the white
/// space that follows the line, where the next token starts.
pub open spec fn comment_at(s: Seq<u8>, pos: int) -> Lexeme {
    let line_end = run_end(s, pos + 1, ByteClass::InLine);
    let text = trim(s.subrange(pos + 1, line_end));
    if text == keyword_bytes(Keyword::EndOfFile) {
        Lexeme {
            token: TokenView::DocumentEnd,
            end: skip_ws(s, line_end),
            effect: StackEffect::Replace(TokenizerState::DocumentEnd),
        }
    } else {
        Lexeme { token: TokenView::Comment(text), end: skip_ws(s, line_end), effect: StackEffect::Keep }
    }
}

pub fn read_comment_at(input: &[u8], pos: usize) -> (r: Lexed)
    requires
        pos < input@.len(),
    ensures
        r@ == comment_at(input@, pos as int),
        pos < r.end <= input@.len(),
{
    let len: usize = input.len();
    let line_end: usize = scan_run(input, pos + 1, ByteClass::InLine);
    let (from, stop) = trim_range(input, pos + 1, line_end);
    let text: &[u8] = slice_subrange(input, from, stop);
    let end: usize = scan_run(input, line_end, ByteClass::Whitespace);
    if spells(text, Keyword::EndOfFile) {
        Lexed {
            token: PDFToken::DocumentEnd,
            end,
            effect: StackEffect::Replace(TokenizerState::DocumentEnd),
        }
    } else {
        Lexed {
            token: PDFToken::Comment(crate::scan::copy_range(input, from, stop)),
            end,
            effect: StackEffect::Keep,
        }
    }
}

/// The number written at `pos`: the word there, read as a number.
pub open spec fn number_at(s: Seq<u8>, pos: int) -> Result<(crate::number::Decimal, int), PdfError> {
    match decimal_value(word_at(s, pos)) {
        Some(value) => Ok((value, word_end(s, pos))),
        None => Err(PdfError::BadNumber { offset: pos as u64 }),
    }
}

pub fn read_number_at(input: &[u8], pos: usize) -> (r: Result<
    (crate::number::Decimal, usize),
    PdfError,
>)
    requires
        pos <= input@.len(),
    ensures
        match r {
            Ok((value, end)) => number_at(input@, pos as int) == Ok::<
                (crate::number::Decimal, int),
                PdfError,
            >((value, end as int)) && pos <= end <= input@.len(),
            Err(e) => number_at(input@, pos as int) == Err::<
                (crate::number::Decimal, int),
                PdfError,
            >(e),
        },
{
    let (word, end) = read_word(input, pos);
    match parse_decimal(word) {
        Some(value) => Ok((value, end)),
        None => Err(PdfError::BadNumber { offset: pos as u64 }),
    }
}

/// The hexadecimal string whose `<` stands at `pos`: its bytes and the
/// position behind its `>`.
pub open spec fn hex_at(s: Seq<u8>, pos: int, state: TokenizerState) -> Result<
    (Seq<u8>, int),
    PdfError,
> {
    let stop = run_end(s, pos + 1, ByteClass::HexDigit);
    if 0 <= stop < s.len() && s[stop] == '>' as u8 {
        Ok((hex_bytes(s.subrange(pos + 1, stop)), stop + 1))
    } else {
        Err(unexpected(s, stop, state))
    }
}

pub fn read_hex_at(input: &[u8], pos: usize, state: TokenizerState) -> (r: Result<
    (Vec<u8>, usize),
    PdfError,
>)
    requires
        pos < input@.len(),
    ensures
        match r {
            Ok((bytes, end)) => hex_at(input@, pos as int, state) == Ok::<(Seq<u8>, int), PdfError>(
                (bytes@, end as int),
            ) && pos < end <= input@.len(),
            Err(e) => hex_at(input@, pos as int, state) == Err::<(Seq<u8>, int), PdfError>(e),
        },
{
    let len: usize = input.len();
    let stop: usize = scan_run(input, pos + 1, ByteClass::HexDigit);
    if stop < input.len() && input[stop] == '>' as u8 {
        let digits: &[u8] = slice_subrange(input, pos + 1, stop);
        proof {
            lemma_run_end(input@, pos + 1, ByteClass::HexDigit);
            assert forall|i: int| 0 <= i < digits@.len() implies crate::scan::is_hex_digit(
                #[trigger] digits@[i],
            ) by {
                assert(digits@[i] == input@[pos + 1 + i]);
                assert(in_class(ByteClass::HexDigit, input@[pos + 1 + i]));
            }
        }
        match decode_hex(digits) {
            Ok(bytes) => Ok((bytes, stop + 1)),
            Err(_) => Err(unexpected_at(input, stop, state)),
        }
    } else {
        Err(unexpected_at(input, stop, state))
    }
}

/// The position behind the one end-of-line mark at `pos`: a carriage return
/// and a line feed, a line feed, or a carriage return.
pub open spec fn line_break_end(s: Seq<u8>, pos: int) -> Option<int> {
    if 0 <= pos && pos + 1 < s.len() && s[pos] == CR && s[pos + 1] == LF {
        Some(pos + 2)
    } else if 0 <= pos < s.len() && (s[pos] == LF || s[pos] == CR) {
        Some(pos + 1)
    } else {
        None
    }
}

pub fn read_line_break(input: &[u8], pos: usize) -> (r: Option<usize>)
    ensures
        r matches Some(end) ==> line_break_end(input@, pos as int) == Some(end as int) && pos < end
            <= input@.len(),
        r is None ==> line_break_end(input@, pos as int) is None,
{
    if pos >= input.len() {
        return None;
    }
    if input[pos] == CR && pos + 1 < input.len() && input[pos + 1] == LF {
        Some(pos + 2)
    } else if input[pos] == LF || input[pos] == CR {
        Some(pos + 1)
    } else {
        None
    }
}

/// Whether two bytes are one of the marks that end a line of a
/// cross-reference table.
pub open spec fn is_entry_line_end(a: u8, b: u8) -> bool {
    (a == SP && b == CR) || (a == SP && b == LF) || (a == CR && b == LF)
}

/// The table entry in the twenty bytes from `pos` on: ten digits of an
/// offset, a space, five digits of a generation, a space, `f` or `n`, and
/// a two-byte end of line.
pub open spec fn xref_entry_at(s: Seq<u8>, pos: int) -> Option<XRefEntry> {
    if 0 <= pos && pos + 20 <= s.len() && unsigned_value(s.subrange(pos, pos + 10)) is Some
        && s[pos + 10] == SP && unsigned_value(s.subrange(pos + 11, pos + 16)) is Some && s[pos
        + 16] == SP && (s[pos + 17] == 'f' as u8 || s[pos + 17] == 'n' as u8) && is_entry_line_end(
        s[pos + 18],
        s[pos + 19],
    ) {
        Some(
            XRefEntry {
                byte_offset: unsigned_value(s.subrange(pos, pos + 10))->0,
                generation_number: unsigned_value(s.subrange(pos + 11, pos + 16))->0,
                free: s[pos + 17] == 'f' as u8,
            },
        )
    } else {
        None
    }
}

pub fn read_xref_entry(input: &[u8], pos: usize) -> (r: Option<XRefEntry>)
    ensures
        r == xref_entry_at(input@, pos as int),
{
    let len: usize = input.len();
    if pos > len || len - pos < 20 {
        return None;
    }
    let offset: u64 = match parse_unsigned(slice_subrange(input, pos, pos + 10)) {
        Some(v) => v,
        None => {
            return None;
        },
    };
    let generation: u64 = match parse_unsigned(slice_subrange(input, pos + 11, pos + 16)) {
        Some(v) => v,
        None => {
            return None;
        },
    };
    let kind: u8 = input[pos + 17];
    let a: u8 = input[pos + 18];
    let b: u8 = input[pos + 19];
    if input[pos + 10] == SP && input[pos + 16] == SP && (kind == 'f' as u8 || kind == 'n' as u8)
        && ((a == SP && b == CR) || (a == SP && b == LF) || (a == CR && b == LF)) {
        Some(XRefEntry { byte_offset: offset, generation_number: generation, free: kind == 'f' as u8 })
    } else {
        None
    }
}

pub open spec fn lexeme(token: TokenView, end: int, effect: StackEffect) -> Result<
    Lexeme,
    PdfError,
> {
    Ok(Lexeme { token, end, effect })
}

pub open spec fn is_keyword_at(s: Seq<u8>, pos: int, k: Keyword) -> bool {
    word_at(s, pos) == keyword_bytes(k)
}

/// The token at `pos` between objects. A token that leaves the automaton
/// between objects ends behind the white space that follows it, so that the
/// cursor then stands where the next object starts.
pub open spec fn lex_start(s: Seq<u8>, pos: int) -> Result<Lexeme, PdfError> {
    if s[pos] == '%' as u8 {
        Ok(comment_at(s, pos))
    } else if is_digit(s[pos]) {
        match header_at(s, pos) {
            Ok((header, end)) => lexeme(
                TokenView::ObjectHeader(header),
                end,
                StackEffect::Replace(TokenizerState::Object),
            ),
            Err(e) => Err(e),
        }
    } else if is_keyword_at(s, pos, Keyword::StartXRef) {
        match unsigned_at(s, skip_ws(s, word_end(s, pos))) {
            Some((offset, end)) => lexeme(
                TokenView::StartXRef(offset),
                skip_ws(s, end),
                StackEffect::Keep,
            ),
            None => Err(PdfError::BadNumber { offset: skip_ws(s, word_end(s, pos)) as u64 }),
        }
    } else if is_keyword_at(s, pos, Keyword::XRef) {
        lexeme(
            TokenView::XRefSectionBegin,
            word_end(s, pos),
            StackEffect::Push(TokenizerState::XRefSection),
        )
    } else if is_keyword_at(s, pos, Keyword::Trailer) {
        lexeme(
            TokenView::TrailerBegin,
            word_end(s, pos),
            StackEffect::Push(TokenizerState::Trailer),
        )
    } else {
        Err(unexpected(s, pos, TokenizerState::Start))
    }
}

/// The token at `pos` where `<<` must open a dictionary.
pub open spec fn dictionary_start_at(s: Seq<u8>, pos: int, state: TokenizerState, effect: StackEffect) -> Result<
    Lexeme,
    PdfError,
> {
    if pos + 1 < s.len() && s[pos + 1] == '<' as u8 {
        lexeme(TokenView::DictionaryStart, pos + 2, effect)
    } else {
        Err(unexpected(s, pos + 1, state))
    }
}

/// The token at `pos` inside an indirect object.
pub open spec fn lex_object(s: Seq<u8>, pos: int) -> Result<Lexeme, PdfError> {
    if s[pos] == '<' as u8 {
        dictionary_start_at(
            s,
            pos,
            TokenizerState::Object,
            StackEffect::Push(TokenizerState::DictionaryKey),
        )
    } else if s[pos] == '[' as u8 {
        lexeme(TokenView::ArrayStart, pos + 1, StackEffect::Push(TokenizerState::ListValue))
    } else if s[pos] == '(' as u8 {
        match literal_at(s, pos) {
            Ok((bytes, end)) => lexeme(TokenView::String(bytes), end, StackEffect::Keep),
            Err(e) => Err(e),
        }
    } else if is_keyword_at(s, pos, Keyword::Stream) {
        match line_break_end(s, word_end(s, pos)) {
            Some(end) => lexeme(
                TokenView::StreamBegin,
                end,
                StackEffect::Push(TokenizerState::Stream),
            ),
            None => Err(unexpected(s, word_end(s, pos), TokenizerState::Object)),
        }
    } else if is_keyword_at(s, pos, Keyword::EndObj) {
        lexeme(
            TokenView::ObjectEnd,
            skip_ws(s, word_end(s, pos)),
            StackEffect::Replace(TokenizerState::Start),
        )
    } else {
        Err(unexpected(s, pos, TokenizerState::Object))
    }
}

/// The token at `pos` where a dictionary expects a key or its end.
pub open spec fn lex_dictionary_key(s: Seq<u8>, pos: int) -> Result<Lexeme, PdfError> {
    if s[pos] == '/' as u8 {
        lexeme(
            TokenView::Name(word_at(s, pos + 1)),
            word_end(s, pos + 1),
            StackEffect::Push(TokenizerState::DictionaryValue),
        )
    } else if s[pos] == '>' as u8 {
        if pos + 1 < s.len() && s[pos + 1] == '>' as u8 {
            lexeme(TokenView::DictionaryEnd, pos + 2, StackEffect::CloseDictionary)
        } else {
            Err(unexpected(s, pos + 1, TokenizerState::DictionaryKey))
        }
    } else {
        Err(unexpected(s, pos, TokenizerState::DictionaryKey))
    }
}

/// What a completed value does to the stack: it leaves the state of a
/// dictionary value, and stays in that of a list.
pub open spec fn value_done(state: TokenizerState) -> StackEffect {
    if state == TokenizerState::DictionaryValue {
        StackEffect::Pop
    } else {
        StackEffect::Keep
    }
}

/// Whether a number or a reference may start with `b`.
pub open spec fn starts_number(b: u8) -> bool {
    is_digit(b) || b == '-' as u8
}

/// The token at `pos` where a number or a reference starts: the reference
/// `N G R` if one is written there, else the number.
pub open spec fn number_or_reference_at(s: Seq<u8>, pos: int, state: TokenizerState) -> Result<
    Lexeme,
    PdfError,
> {
    match reference_at(s, pos) {
        Some((header, end)) => lexeme(TokenView::ObjectReference(header), end, value_done(state)),
        None => match number_at(s, pos) {
            Ok((value, end)) => lexeme(TokenView::Number(value), end, value_done(state)),
            Err(e) => Err(e),
        },
    }
}

/// The token at `pos` where a value is expected: in a dictionary
/// (`DictionaryValue`) or in an array (`ListValue`), which may also end there.
pub open spec fn lex_value(s: Seq<u8>, pos: int, state: TokenizerState) -> Result<Lexeme, PdfError> {
    if s[pos] == '[' as u8 {
        lexeme(
            TokenView::ArrayStart,
            pos + 1,
            if state == TokenizerState::DictionaryValue {
                StackEffect::Replace(TokenizerState::ListValue)
            } else {
                StackEffect::Push(TokenizerState::ListValue)
            },
        )
    } else if s[pos] == ']' as u8 && state == TokenizerState::ListValue {
        lexeme(TokenView::ArrayEnd, pos + 1, StackEffect::Pop)
    } else if s[pos] == '/' as u8 {
        lexeme(TokenView::Name(word_at(s, pos + 1)), word_end(s, pos + 1), value_done(state))
    } else if s[pos] == '(' as u8 {
        match literal_at(s, pos) {
            Ok((bytes, end)) => lexeme(TokenView::String(bytes), end, value_done(state)),
            Err(e) => Err(e),
        }
    } else if s[pos] == '<' as u8 {
        if pos + 1 < s.len() && s[pos + 1] == '<' as u8 {
            lexeme(
                TokenView::DictionaryStart,
                pos + 2,
                StackEffect::Push(TokenizerState::DictionaryKey),
            )
        } else {
            match hex_at(s, pos, state) {
                Ok((bytes, end)) => lexeme(TokenView::HexString(bytes), end, value_done(state)),
                Err(e) => Err(e),
            }
        }
    } else if starts_number(s[pos]) {
        number_or_reference_at(s, pos, state)
    } else if is_keyword_at(s, pos, Keyword::True) {
        lexeme(TokenView::Boolean(true), word_end(s, pos), value_done(state))
    } else if is_keyword_at(s, pos, Keyword::False) {
        lexeme(TokenView::Boolean(false), word_end(s, pos), value_done(state))
    } else if is_keyword_at(s, pos, Keyword::Null) {
        lexeme(TokenView::Null, word_end(s, pos), value_done(state))
    } else {
        Err(unexpected(s, pos, state))
    }
}

/// The token at `pos` behind the bytes of a stream.
pub open spec fn lex_stream_end(s: Seq<u8>, pos: int) -> Result<Lexeme, PdfError> {
    if is_keyword_at(s, pos, Keyword::EndStream) {
        lexeme(TokenView::StreamEnd, word_end(s, pos), StackEffect::Pop)
    } else {
        Err(unexpected(s, pos, TokenizerState::StreamEnd))
    }
}

/// The token at `pos` behind `xref`: the line `first count`.
pub open spec fn lex_xref_section(s: Seq<u8>, pos: int) -> Result<Lexeme, PdfError> {
    match two_numbers_at(s, pos) {
        Some((first, count, end)) => lexeme(
            TokenView::XRefSubSectionHeader(
                XRefHeader { first_object_number: first, num_entries: count },
            ),
            end,
            StackEffect::Push(TokenizerState::XRefEntry),
        ),
        None => Err(PdfError::XRefFormat { cause: crate::error::XRefFault::BadEntry }),
    }
}

/// The token at `pos` inside a cross-reference table: one entry.
pub open spec fn lex_xref_entry(s: Seq<u8>, pos: int) -> Result<Lexeme, PdfError> {
    match xref_entry_at(s, pos) {
        Some(entry) => lexeme(TokenView::XRefEntry(entry), pos + 20, StackEffect::Keep),
        None => Err(PdfError::XRefFormat { cause: crate::error::XRefFault::BadEntry }),
    }
}

/// The token at `pos` behind `trailer`.
pub open spec fn lex_trailer(s: Seq<u8>, pos: int) -> Result<Lexeme, PdfError> {
    if s[pos] == '<' as u8 {
        dictionary_start_at(
            s,
            pos,
            TokenizerState::Trailer,
            StackEffect::Replace(TokenizerState::DictionaryKey),
        )
    } else {
        Err(unexpected(s, pos, TokenizerState::Trailer))
    }
}

/// The token that stands in `s` from `pos` on when the automaton is in
/// `state`: white space is passed over, and the first byte behind it decides.
/// No token is read inside a stream body or behind the end of the document.
pub open spec fn lex(s: Seq<u8>, pos: int, state: TokenizerState) -> Result<Lexeme, PdfError> {
    let at = skip_ws(s, pos);
    if state == TokenizerState::Stream {
        Err(PdfError::StateViolation { cause: crate::error::Violation::InStreamBody })
    } else if state == TokenizerState::DocumentEnd {
        Err(PdfError::StateViolation { cause: crate::error::Violation::DocumentEnded })
    } else if !(0 <= at < s.len()) {
        Err(PdfError::UnexpectedEnd { offset: at as u64 })
    } else {
        match state {
            TokenizerState::Start => lex_start(s, at),
            TokenizerState::Object => lex_object(s, at),
            TokenizerState::DictionaryKey => lex_dictionary_key(s, at),
            TokenizerState::DictionaryValue => lex_value(s, at, state),
            TokenizerState::ListValue => lex_value(s, at, state),
            TokenizerState::StreamEnd => lex_stream_end(s, at),
            TokenizerState::XRefSection => lex_xref_section(s, at),
            TokenizerState::XRefEntry => lex_xref_entry(s, at),
            _ => lex_trailer(s, at),
        }
    }
}

pub fn lexed(token: PDFToken, end: usize, effect: StackEffect) -> (r: Result<Lexed, PdfError>)
    ensures
        lexed_view(r) == lexeme(token@, end as int, effect),
        r is Ok,
        r->Ok_0.end == end,
{
    Ok(Lexed { token, end, effect })
}

/// Whether the word at `pos` spells the keyword; with it, where the word ends.
pub fn keyword_at(input: &[u8], pos: usize, k: Keyword) -> (r: (bool, usize))
    requires
        pos <= input@.len(),
    ensures
        r.0 == is_keyword_at(input@, pos as int, k),
        r.1 == word_end(input@, pos as int),
        pos <= r.1 <= input@.len(),
        r.0 ==> pos < r.1,
{
    let (word, end) = read_word(input, pos);
    let matched: bool = spells(word, k);
    proof {
        if matched {
            assert(keyword_bytes(k).len() > 0);
        }
    }
    (matched, end)
}

pub fn read_start(input: &[u8], pos: usize) -> (r: Result<Lexed, PdfError>)
    requires
        pos < input@.len(),
    ensures
        lexed_view(r) == lex_start(input@, pos as int),
        r matches Ok(l) ==> pos < l.end <= input@.len(),
{
    let c: u8 = input[pos];
    if c == '%' as u8 {
        return Ok(read_comment_at(input, pos));
    }
    if is_digit_byte(c) {
        return match read_header(input, pos) {
            Ok((header, end)) => lexed(
                PDFToken::ObjectHeader(header),
                end,
                StackEffect::Replace(TokenizerState::Object),
            ),
            Err(e) => Err(e),
        };
    }
    let (is_startxref, end) = keyword_at(input, pos, Keyword::StartXRef);
    if is_startxref {
        let at: usize = scan_run(input, end, ByteClass::Whitespace);
        return match read_unsigned(input, at) {
            Some((offset, stop)) => lexed(
                PDFToken::StartXRef(offset),
                scan_run(input, stop, ByteClass::Whitespace),
                StackEffect::Keep,
            ),
            None => Err(PdfError::BadNumber { offset: at as u64 }),
        };
    }
    if keyword_at(input, pos, Keyword::XRef).0 {
        return lexed(
            PDFToken::XRefSectionBegin,
            end,
            StackEffect::Push(TokenizerState::XRefSection),
        );
    }
    if keyword_at(input, pos, Keyword::Trailer).0 {
        return lexed(PDFToken::TrailerBegin, end, StackEffect::Push(TokenizerState::Trailer));
    }
    Err(unexpected_at(input, pos, TokenizerState::Start))
}

pub fn read_dictionary_start(
    input: &[u8],
    pos: usize,
    state: TokenizerState,
    effect: StackEffect,
) -> (r: Result<Lexed, PdfError>)
    requires
        pos < input@.len(),
    ensures
        lexed_view(r) == dictionary_start_at(input@, pos as int, state, effect),
        r matches Ok(l) ==> pos < l.end <= input@.len(),
{
    let len: usize = input.len();
    if pos + 1 < len && input[pos + 1] == '<' as u8 {
        lexed(PDFToken::DictionaryStart, pos + 2, effect)
    } else {
        Err(unexpected_at(input, pos + 1, state))
    }
}

pub fn read_object(input: &[u8], pos: usize) -> (r: Result<Lexed, PdfError>)
    requires
        pos < input@.len(),
    ensures
        lexed_view(r) == lex_object(input@, pos as int),
        r matches Ok(l) ==> pos < l.end <= input@.len(),
{
    let c: u8 = input[pos];
    if c == '<' as u8 {
        return read_dictionary_start(
            input,
            pos,
            TokenizerState::Object,
            StackEffect::Push(TokenizerState::DictionaryKey),
        );
    }
    if c == '[' as u8 {
        return lexed(PDFToken::ArrayStart, pos + 1, StackEffect::Push(TokenizerState::ListValue));
    }
    if c == '(' as u8 {
        return match read_literal(input, pos) {
            Ok((bytes, end)) => lexed(PDFToken::String(bytes), end, StackEffect::Keep),
            Err(e) => Err(e),
        };
    }
    let (is_stream, end) = keyword_at(input, pos, Keyword::Stream);
    if is_stream {
        return match read_line_break(input, end) {
            Some(stop) => lexed(
                PDFToken::StreamBegin,
                stop,
                StackEffect::Push(TokenizerState::Stream),
            ),
            None => Err(unexpected_at(input, end, TokenizerState::Object)),
        };
    }
    if keyword_at(input, pos, Keyword::EndObj).0 {
        return lexed(
            PDFToken::ObjectEnd,
            scan_run(input, end, ByteClass::Whitespace),
            StackEffect::Replace(TokenizerState::Start),
        );
    }
    Err(unexpected_at(input, pos, TokenizerState::Object))
}

/// The name behind the `/` at `pos`, and where it ends.
pub fn read_name(input: &[u8], pos: usize) -> (r: (Vec<u8>, usize))
    requires
        pos < input@.len(),
    ensures
        r.0@ == word_at(input@, pos + 1),
        r.1 == word_end(input@, pos + 1),
        pos < r.1 <= input@.len(),
{
    let len: usize = input.len();
    let end: usize = scan_run(input, pos + 1, ByteClass::Regular);
    (crate::scan::copy_range(input, pos + 1, end), end)
}

pub fn read_dictionary_key(input: &[u8], pos: usize) -> (r: Result<Lexed, PdfError>)
    requires
        pos < input@.len(),
    ensures
        lexed_view(r) == lex_dictionary_key(input@, pos as int),
        r matches Ok(l) ==> pos < l.end <= input@.len(),
{
    let c: u8 = input[pos];
    if c == '/' as u8 {
        let (name, end) = read_name(input, pos);
        lexed(PDFToken::Name(name), end, StackEffect::Push(TokenizerState::DictionaryValue))
    } else if c == '>' as u8 {
        if pos + 1 < input.len() && input[pos + 1] == '>' as u8 {
            lexed(PDFToken::DictionaryEnd, pos + 2, StackEffect::CloseDictionary)
        } else {
            Err(unexpected_at(input, pos + 1, TokenizerState::DictionaryKey))
        }
    } else {
        Err(unexpected_at(input, pos, TokenizerState::DictionaryKey))
    }
}

pub fn value_done_effect(state: TokenizerState) -> (r: StackEffect)
    ensures
        r == value_done(state),
{
    if state == TokenizerState::DictionaryValue {
        StackEffect::Pop
    } else {
        StackEffect::Keep
    }
}

pub fn read_number_or_reference(input: &[u8], pos: usize, state: TokenizerState) -> (r: Result<
    Lexed,
    PdfError,
>)
    requires
        pos < input@.len(),
        starts_number(input@[pos as int]),
    ensures
        lexed_view(r) == number_or_reference_at(input@, pos as int, state),
        r matches Ok(l) ==> pos < l.end <= input@.len(),
{
    match read_reference(input, pos) {
        Some((header, end)) => lexed(
            PDFToken::ObjectReference(header),
            end,
            value_done_effect(state),
        ),
        None => match read_number_at(input, pos) {
            Ok((value, end)) => {
                proof {
                    lemma_run_end(input@, pos as int, ByteClass::Regular);
                    assert(in_class(ByteClass::Regular, input@[pos as int]));
                }
                lexed(PDFToken::Number(value), end, value_done_effect(state))
            },
            Err(e) => Err(e),
        },
    }
}

pub fn read_value(input: &[u8], pos: usize, state: TokenizerState) -> (r: Result<Lexed, PdfError>)
    requires
        pos < input@.len(),
    ensures
        lexed_view(r) == lex_value(input@, pos as int, state),
        r matches Ok(l) ==> pos < l.end <= input@.len(),
{
    let c: u8 = input[pos];
    let done: StackEffect = value_done_effect(state);
    if c == '[' as u8 {
        let effect: StackEffect = if state == TokenizerState::DictionaryValue {
            StackEffect::Replace(TokenizerState::ListValue)
        } else {
            StackEffect::Push(TokenizerState::ListValue)
        };
        return lexed(PDFToken::ArrayStart, pos + 1, effect);
    }
    if c == ']' as u8 && state == TokenizerState::ListValue {
        return lexed(PDFToken::ArrayEnd, pos + 1, StackEffect::Pop);
    }
    if c == '/' as u8 {
        let (name, end) = read_name(input, pos);
        return lexed(PDFToken::Name(name), end, done);
    }
    if c == '(' as u8 {
        return match read_literal(input, pos) {
            Ok((bytes, end)) => lexed(PDFToken::String(bytes), end, done),
            Err(e) => Err(e),
        };
    }
    if c == '<' as u8 {
        if pos + 1 < input.len() && input[pos + 1] == '<' as u8 {
            return lexed(
                PDFToken::DictionaryStart,
                pos + 2,
                StackEffect::Push(TokenizerState::DictionaryKey),
            );
        }
        return match read_hex_at(input, pos, state) {
            Ok((bytes, end)) => lexed(PDFToken::HexString(bytes), end, done),
            Err(e) => Err(e),
        };
    }
    if is_digit_byte(c) || c == '-' as u8 {
        return read_number_or_reference(input, pos, state);
    }
    let (is_true, end) = keyword_at(input, pos, Keyword::True);
    if is_true {
        return lexed(PDFToken::Boolean(true), end, done);
    }
    if keyword_at(input, pos, Keyword::False).0 {
        return lexed(PDFToken::Boolean(false), end, done);
    }
    if keyword_at(input, pos, Keyword::Null).0 {
        return lexed(PDFToken::Null, end, done);
    }
    Err(unexpected_at(input, pos, state))
}

pub fn read_stream_end(input: &[u8], pos: usize) -> (r: Result<Lexed, PdfError>)
    requires
        pos < input@.len(),
    ensures
        lexed_view(r) == lex_stream_end(input@, pos as int),
        r matches Ok(l) ==> pos < l.end <= input@.len(),
{
    let (is_end, end) = keyword_at(input, pos, Keyword::EndStream);
    if is_end {
        lexed(PDFToken::StreamEnd, end, StackEffect::Pop)
    } else {
        Err(unexpected_at(input, pos, TokenizerState::StreamEnd))
    }
}

pub fn read_xref_section(input: &[u8], pos: usize) -> (r: Result<Lexed, PdfError>)
    requires
        pos < input@.len(),
    ensures
        lexed_view(r) == lex_xref_section(input@, pos as int),
        r matches Ok(l) ==> pos < l.end <= input@.len(),
{
    match read_two_numbers(input, pos) {
        Some((first, count, end)) => lexed(
            PDFToken::XRefSubSectionHeader(
                XRefHeader { first_object_number: first, num_entries: count },
            ),
            end,
            StackEffect::Push(TokenizerState::XRefEntry),
        ),
        None => Err(PdfError::XRefFormat { cause: crate::error::XRefFault::BadEntry }),
    }
}

pub fn read_xref_entry_token(input: &[u8], pos: usize) -> (r: Result<Lexed, PdfError>)
    requires
        pos < input@.len(),
    ensures
        lexed_view(r) == lex_xref_entry(input@, pos as int),
        r matches Ok(l) ==> pos < l.end <= input@.len(),
{
    let len: usize = input.len();
    match read_xref_entry(input, pos) {
        Some(entry) => lexed(PDFToken::XRefEntry(entry), pos + 20, StackEffect::Keep),
        None => Err(PdfError::XRefFormat { cause: crate::error::XRefFault::BadEntry }),
    }
}

pub fn read_trailer(input: &[u8], pos: usize) -> (r: Result<Lexed, PdfError>)
    requires
        pos < input@.len(),
    ensures
        lexed_view(r) == lex_trailer(input@, pos as int),
        r matches Ok(l) ==> pos < l.end <= input@.len(),
{
    if input[pos] == '<' as u8 {
        read_dictionary_start(
            input,
            pos,
            TokenizerState::Trailer,
            StackEffect::Replace(TokenizerState::DictionaryKey),
        )
    } else {
        Err(unexpected_at(input, pos, TokenizerState::Trailer))
    }
}

/// Reads the token that stands in `input` from `pos` on in `state`.
pub fn lex_at(input: &[u8], pos: usize, state: TokenizerState) -> (r: Result<Lexed, PdfError>)
    ensures
        lexed_view(r) == lex(input@, pos as int, state),
        r matches Ok(l) ==> pos < l.end <= input@.len(),
{
    match state {
        TokenizerState::Stream => {
            return Err(
                PdfError::StateViolation { cause: crate::error::Violation::InStreamBody },
            );
        },
        TokenizerState::DocumentEnd => {
            return Err(
                PdfError::StateViolation { cause: crate::error::Violation::DocumentEnded },
            );
        },
        _ => {},
    }
    let at: usize = scan_run(input, pos, ByteClass::Whitespace);
    if at >= input.len() {
        return Err(PdfError::UnexpectedEnd { offset: at as u64 });
    }
    match state {
        TokenizerState::Start => read_start(input, at),
        TokenizerState::Object => read_object(input, at),
        TokenizerState::DictionaryKey => read_dictionary_key(input, at),
        TokenizerState::DictionaryValue => read_value(input, at, state),
        TokenizerState::ListValue => read_value(input, at, state),
        TokenizerState::StreamEnd => read_stream_end(input, at),
        TokenizerState::XRefSection => read_xref_section(input, at),
        TokenizerState::XRefEntry => read_xref_entry_token(input, at),
        _ => read_trailer(input, at),
    }
}

/// A literal string that is read ends behind where it starts, inside the input.
pub proof fn lemma_literal_advances(s: Seq<u8>, pos: int, depth: nat)
    requires
        0 <= pos,
    ensures
        literal_body(s, pos, depth) matches Ok((bytes, end)) ==> pos < end <= s.len(),
    decreases s.len() - pos,
{
    if 0 <= pos < s.len() {
        if s[pos] == '(' as u8 {
            lemma_literal_advances(s, pos + 1, depth + 1);
        } else if s[pos] == ')' as u8 {
            if depth > 0 {
                lemma_literal_advances(s, pos + 1, (depth - 1) as nat);
            }
        } else if s[pos] == '\\' as u8 {
            match crate::strings::escape_at(s, pos + 1) {
                Ok((byte, next)) => {
                    if next > pos {
                        lemma_literal_advances(s, next, depth);
                    }
                },
                Err(e) => {},
            }
        } else {
            lemma_literal_advances(s, pos + 1, depth);
        }
    }
}

pub proof fn lemma_unsigned_advances(s: Seq<u8>, pos: int)
    requires
        0 <= pos <= s.len(),
    ensures
        unsigned_at(s, pos) matches Some((value, end)) ==> pos < end <= s.len(),
{
    lemma_run_end(s, pos, ByteClass::Digit);
}

pub proof fn lemma_two_numbers_advance(s: Seq<u8>, pos: int)
    requires
        0 <= pos <= s.len(),
    ensures
        two_numbers_at(s, pos) matches Some((first, second, end)) ==> pos < end <= s.len(),
{
    lemma_unsigned_advances(s, pos);
    match unsigned_at(s, pos) {
        Some((first, first_end)) => {
            lemma_run_end(s, first_end, ByteClass::Whitespace);
            lemma_unsigned_advances(s, skip_ws(s, first_end));
            match unsigned_at(s, skip_ws(s, first_end)) {
                Some((second, second_end)) => {
                    lemma_run_end(s, second_end, ByteClass::Whitespace);
                },
                None => {},
            }
        },
        None => {},
    }
}

pub proof fn lemma_keyword_advances(s: Seq<u8>, at: int, k: Keyword)
    requires
        0 <= at <= s.len(),
    ensures
        at <= word_end(s, at) <= s.len(),
        is_keyword_at(s, at, k) ==> at < word_end(s, at),
        word_end(s, at) <= skip_ws(s, word_end(s, at)) <= s.len(),
{
    lemma_run_end(s, at, ByteClass::Regular);
    lemma_run_end(s, word_end(s, at), ByteClass::Whitespace);
    assert(keyword_bytes(k).len() > 0);
}

pub proof fn lemma_start_advances(s: Seq<u8>, at: int)
    requires
        0 <= at < s.len(),
    ensures
        lex_start(s, at) matches Ok(l) ==> at < l.end <= s.len(),
{
    if s[at] == '%' as u8 {
        lemma_run_end(s, at + 1, ByteClass::InLine);
        lemma_run_end(s, run_end(s, at + 1, ByteClass::InLine), ByteClass::Whitespace);
    } else if is_digit(s[at]) {
        lemma_two_numbers_advance(s, at);
    } else {
        lemma_keyword_advances(s, at, Keyword::StartXRef);
        lemma_keyword_advances(s, at, Keyword::XRef);
        lemma_keyword_advances(s, at, Keyword::Trailer);
        if is_keyword_at(s, at, Keyword::StartXRef) {
            let number_at = skip_ws(s, word_end(s, at));
            lemma_unsigned_advances(s, number_at);
            match unsigned_at(s, number_at) {
                Some((offset, end)) => {
                    lemma_run_end(s, end, ByteClass::Whitespace);
                },
                None => {},
            }
        }
    }
}

pub proof fn lemma_object_advances(s: Seq<u8>, at: int)
    requires
        0 <= at < s.len(),
    ensures
        lex_object(s, at) matches Ok(l) ==> at < l.end <= s.len(),
{
    lemma_literal_advances(s, at + 1, 0);
    lemma_keyword_advances(s, at, Keyword::Stream);
    lemma_keyword_advances(s, at, Keyword::EndObj);
}

pub proof fn lemma_value_advances(s: Seq<u8>, at: int, state: TokenizerState)
    requires
        0 <= at < s.len(),
    ensures
        lex_value(s, at, state) matches Ok(l) ==> at < l.end <= s.len(),
{
    lemma_literal_advances(s, at + 1, 0);
    lemma_run_end(s, at + 1, ByteClass::Regular);
    lemma_run_end(s, at + 1, ByteClass::HexDigit);
    lemma_two_numbers_advance(s, at);
    lemma_keyword_advances(s, at, Keyword::True);
    lemma_keyword_advances(s, at, Keyword::False);
    lemma_keyword_advances(s, at, Keyword::Null);
    if starts_number(s[at]) {
        assert(in_class(ByteClass::Regular, s[at]));
    }
}

/// Every token ends behind the position that it is read from, inside the input.
pub proof fn lemma_lex_advances(s: Seq<u8>, pos: int, state: TokenizerState)
    requires
        0 <= pos,
    ensures
        lex(s, pos, state) matches Ok(l) ==> pos < l.end <= s.len(),
{
    let at = skip_ws(s, pos);
    if pos <= s.len() {
        lemma_run_end(s, pos, ByteClass::Whitespace);
    }
    if state != TokenizerState::Stream && state != TokenizerState::DocumentEnd && 0 <= at
        < s.len() {
        match state {
            TokenizerState::Start => {
                lemma_start_advances(s, at);
            },
            TokenizerState::Object => {
                lemma_object_advances(s, at);
            },
            TokenizerState::DictionaryKey => {
                lemma_run_end(s, at + 1, ByteClass::Regular);
            },
            TokenizerState::DictionaryValue | TokenizerState::ListValue => {
                lemma_value_advances(s, at, state);
            },
            TokenizerState::StreamEnd => {
                lemma_keyword_advances(s, at, Keyword::EndStream);
            },
            TokenizerState::XRefSection => {
                lemma_two_numbers_advance(s, at);
            },
            _ => {},
        }
    }
}

/// A byte string that is written as a literal string and tokenized where a
/// value is expected gives the token `String` of the byte string, which ends
/// where the written string ends.
pub proof fn lemma_literal_token_round_trip(bytes: Seq<u8>, tail: Seq<u8>, state: TokenizerState)
    requires
        state == TokenizerState::DictionaryValue || state == TokenizerState::ListValue,
    ensures
        lex(crate::strings::literal_encoding(bytes) + tail, 0, state) == lexeme(
            TokenView::String(bytes),
            crate::strings::literal_encoding(bytes).len() as int,
            value_done(state),
        ),
{
    let s = crate::strings::literal_encoding(bytes) + tail;
    crate::strings::lemma_literal_round_trip(bytes, tail);
    assert(s[0] == '(' as u8);
    assert(skip_ws(s, 0) == 0);
}

pub open spec fn is_stalled(e: PdfError) -> bool {
    e == (PdfError::StateViolation { cause: crate::error::Violation::Stalled })
}

pub proof fn lemma_literal_never_stalled(s: Seq<u8>, pos: int, depth: nat)
    ensures
        literal_body(s, pos, depth) matches Err(e) ==> !is_stalled(e),
    decreases s.len() - pos,
{
    if 0 <= pos < s.len() {
        if s[pos] == '(' as u8 {
            lemma_literal_never_stalled(s, pos + 1, depth + 1);
        } else if s[pos] == ')' as u8 {
            if depth > 0 {
                lemma_literal_never_stalled(s, pos + 1, (depth - 1) as nat);
            }
        } else if s[pos] == '\\' as u8 {
            match crate::strings::escape_at(s, pos + 1) {
                Ok((byte, next)) => {
                    if next > pos {
                        lemma_literal_never_stalled(s, next, depth);
                    }
                },
                Err(e) => {},
            }
        } else {
            lemma_literal_never_stalled(s, pos + 1, depth);
        }
    }
}

/// No token fails for want of progress.
pub proof fn lemma_lex_never_stalled(s: Seq<u8>, pos: int, state: TokenizerState)
    ensures
        lex(s, pos, state) matches Err(e) ==> !is_stalled(e),
{
    let at = skip_ws(s, pos);
    lemma_literal_never_stalled(s, at + 1, 0);
}

} // verus!
