use pdf_reader::cursor::ByteCursor;
use pdf_reader::error::{PdfError, Violation, XRefFault};
use pdf_reader::number::Decimal;
use pdf_reader::tokenizer::{
    PDFObjectHeader, PDFToken, PDFTokenPatterns, PDFTokenize, Tokenizer, TokenizerState,
    XRefEntry, XRefHeader, XRefStreamEntry,
};

fn tokenizer_in(bytes: &[u8], state: TokenizerState) -> Tokenizer {
    let mut t = Tokenizer::new(ByteCursor::new(bytes.to_vec()));
    t.pop_state();
    t.push_state(state);
    t
}

fn number(mantissa: u64) -> PDFToken {
    PDFToken::Number(Decimal { negative: false, mantissa, scale: 0 })
}

#[test]
fn cursor_reads_and_seeks() {
    let mut c = ByteCursor::new(vec![10, 20, 30, 40]);
    assert_eq!(c.position(), 0);
    assert_eq!(c.len(), 4);
    assert_eq!(c.read_byte(), Some(10));
    assert_eq!(c.read_exact(2), Some(vec![20, 30]));
    assert_eq!(c.position(), 3);
    assert_eq!(c.read_exact(2), None);
    assert_eq!(c.position(), 3);
    assert!(c.seek(1));
    assert_eq!(c.read_byte(), Some(20));
    assert!(!c.seek(5));
    assert_eq!(c.position(), 2);
    assert!(c.seek_rel(-2));
    assert_eq!(c.position(), 0);
    assert!(!c.seek_rel(-1));
    assert!(c.seek_rel(4));
    assert_eq!(c.read_byte(), None);
    assert!(!c.seek_rel(1));
    assert_eq!(c.bytes(), &[10u8, 20, 30, 40][..]);
}

#[test]
fn hex_string_with_odd_digit_count_is_padded() {
    let mut t = tokenizer_in(b"<4A4B4>", TokenizerState::ListValue);
    assert_eq!(t.next(), Ok(PDFToken::HexString(vec![0x4A, 0x4B, 0x40])));
    assert_eq!(t.get_offset(), 7);
}

#[test]
fn hex_string_parity_on_values() {
    let mut t = Tokenizer::new(ByteCursor::new(Vec::new()));
    let odd = t.hex_string_to_bytes(b"abC".to_vec());
    let even = t.hex_string_to_bytes(b"abC0".to_vec());
    assert_eq!(odd, Ok(vec![0xAB, 0xC0]));
    assert_eq!(odd, even);
    assert_eq!(t.hex_string_to_bytes(Vec::new()), Ok(Vec::new()));
    assert_eq!(t.hex_string_to_bytes(b"12g4".to_vec()), Err(PdfError::BadNumber { offset: 2 }));
}

#[test]
fn hex_string_rejects_other_bytes() {
    let mut t = tokenizer_in(b"<4A 4B>", TokenizerState::ListValue);
    assert_eq!(
        t.next(),
        Err(PdfError::UnexpectedByte { offset: 3, state: TokenizerState::ListValue, byte: b' ' })
    );
    let mut t = tokenizer_in(b"<4A", TokenizerState::DictionaryValue);
    assert_eq!(t.next(), Err(PdfError::UnexpectedEnd { offset: 3 }));
}

#[test]
fn reference_in_dictionary() {
    let mut t = tokenizer_in(b"/K 3 0 R", TokenizerState::DictionaryKey);
    assert_eq!(t.next(), Ok(PDFToken::Name(b"K".to_vec())));
    assert_eq!(t.get_state(), TokenizerState::DictionaryValue);
    assert_eq!(
        t.next(),
        Ok(PDFToken::ObjectReference(PDFObjectHeader { object_number: 3, generation_number: 0 }))
    );
    assert_eq!(t.get_state(), TokenizerState::DictionaryKey);
    assert_eq!(t.get_offset(), 8);
}

#[test]
fn numbers_in_array_where_no_reference_follows() {
    let mut t = tokenizer_in(b"3 0 ]", TokenizerState::ListValue);
    assert_eq!(t.next(), Ok(number(3)));
    assert_eq!(t.get_offset(), 1);
    assert_eq!(t.get_state(), TokenizerState::ListValue);
    assert_eq!(t.next(), Ok(number(0)));
    assert_eq!(t.get_offset(), 3);
    assert_eq!(t.next(), Ok(PDFToken::ArrayEnd));
}

#[test]
fn failed_reference_leaves_cursor_behind_the_number() {
    let mut t = tokenizer_in(b"  12 7 obj", TokenizerState::DictionaryValue);
    t.push_state(TokenizerState::DictionaryValue);
    assert_eq!(t.next(), Ok(number(12)));
    assert_eq!(t.get_offset(), 4);
    assert_eq!(t.get_state(), TokenizerState::DictionaryValue);
}

#[test]
fn negative_and_fractional_numbers() {
    let mut t = tokenizer_in(b"-12.50 0.25 7.", TokenizerState::ListValue);
    assert_eq!(
        t.next(),
        Ok(PDFToken::Number(Decimal { negative: true, mantissa: 1250, scale: 2 }))
    );
    assert_eq!(
        t.next(),
        Ok(PDFToken::Number(Decimal { negative: false, mantissa: 25, scale: 2 }))
    );
    assert_eq!(t.next(), Ok(PDFToken::Number(Decimal { negative: false, mantissa: 7, scale: 0 })));
}

#[test]
fn bad_number_is_an_error() {
    let mut t = tokenizer_in(b" 1.2.3 ", TokenizerState::ListValue);
    assert_eq!(t.next(), Err(PdfError::BadNumber { offset: 1 }));
    assert_eq!(t.get_offset(), 0);
    let mut t = tokenizer_in(b"99999999999999999999999 ", TokenizerState::ListValue);
    assert_eq!(t.next(), Err(PdfError::BadNumber { offset: 0 }));
}

#[test]
fn peek_leaves_the_tokenizer_as_it_was() {
    let mut t = tokenizer_in(b" [ /A ]", TokenizerState::Object);
    let peeked = t.peak_next();
    assert_eq!(t.get_offset(), 0);
    assert_eq!(t.get_state(), TokenizerState::Object);
    let read = t.next();
    assert_eq!(peeked, read);
    assert_eq!(read, Ok(PDFToken::ArrayStart));
    assert_eq!(t.get_offset(), 2);
    assert_eq!(t.get_state(), TokenizerState::ListValue);
}

#[test]
fn peek_multiple_reads_that_many_tokens() {
    let mut t = tokenizer_in(b"[ /A (b) ] endobj", TokenizerState::Object);
    let tokens = t.peak_multiple(4);
    assert_eq!(
        tokens,
        Ok(vec![
            PDFToken::ArrayStart,
            PDFToken::Name(b"A".to_vec()),
            PDFToken::String(b"b".to_vec()),
            PDFToken::ArrayEnd,
        ])
    );
    assert_eq!(t.get_offset(), 0);
    assert_eq!(t.get_state(), TokenizerState::Object);
    assert_eq!(t.peak_multiple(0), Ok(Vec::new()));
    let mut t = tokenizer_in(b"[ ?", TokenizerState::Object);
    assert_eq!(
        t.peak_multiple(2),
        Err(PdfError::UnexpectedByte { offset: 2, state: TokenizerState::ListValue, byte: b'?' })
    );
    assert_eq!(t.get_offset(), 0);
}

#[test]
fn literal_string_escapes() {
    let mut t = tokenizer_in(b"(a\\n\\r\\t\\b\\f\\\\\\(\\)z)", TokenizerState::Object);
    assert_eq!(
        t.next(),
        Ok(PDFToken::String(vec![b'a', 0x0A, 0x0D, 0x09, 0x08, 0x0C, b'\\', b'(', b')', b'z']))
    );
}

#[test]
fn literal_string_balanced_parentheses() {
    let mut t = tokenizer_in(b"(a(b(c))d) ", TokenizerState::ListValue);
    assert_eq!(t.next(), Ok(PDFToken::String(b"a(b(c))d".to_vec())));
    assert_eq!(t.get_offset(), 10);
}

#[test]
fn literal_string_octal_escapes_of_one_to_three_digits() {
    let mut t = tokenizer_in(b"(\\101\\7x\\12y\\0009)", TokenizerState::ListValue);
    assert_eq!(t.next(), Ok(PDFToken::String(vec![0x41, 0x07, b'x', 0x0A, b'y', 0x00, b'9'])));
}

#[test]
fn literal_string_bad_escape() {
    let mut t = tokenizer_in(b"(a\\qb)", TokenizerState::ListValue);
    assert_eq!(t.next(), Err(PdfError::BadEscape { offset: 3, byte: b'q' }));
    let mut t = tokenizer_in(b"(\\777)", TokenizerState::ListValue);
    assert_eq!(t.next(), Err(PdfError::BadEscape { offset: 2, byte: b'7' }));
    let mut t = tokenizer_in(b"(abc", TokenizerState::ListValue);
    assert_eq!(t.next(), Err(PdfError::UnexpectedEnd { offset: 4 }));
}

#[test]
fn literal_string_round_trip() {
    let original: Vec<u8> = vec![b'a', b'(', b'\\', b')', b')', 0, 255, b'\n', b'('];
    let mut written: Vec<u8> = vec![b'('];
    for b in original.iter() {
        if *b == b'(' || *b == b')' || *b == b'\\' {
            written.push(b'\\');
        }
        written.push(*b);
    }
    written.push(b')');
    written.extend_from_slice(b" tail");
    let mut t = tokenizer_in(&written, TokenizerState::ListValue);
    assert_eq!(t.next(), Ok(PDFToken::String(original)));
}

#[test]
fn read_literal_string_from_the_cursor() {
    let mut t = Tokenizer::new(ByteCursor::new(b"(ab)cd)".to_vec()));
    assert_eq!(t.read_literal_string(), Ok(b"ab".to_vec()));
    assert_eq!(t.get_offset(), 4);
    assert_eq!(t.read_literal_string(), Ok(b"cd".to_vec()));
    assert_eq!(t.get_offset(), 7);
    assert_eq!(t.read_literal_string(), Err(PdfError::UnexpectedEnd { offset: 7 }));
}

#[test]
fn names_end_at_white_space_and_delimiters() {
    let mut t = tokenizer_in(b"/Na.me/Other[/X(", TokenizerState::ListValue);
    assert_eq!(t.next(), Ok(PDFToken::Name(b"Na.me".to_vec())));
    assert_eq!(t.next(), Ok(PDFToken::Name(b"Other".to_vec())));
    assert_eq!(t.next(), Ok(PDFToken::ArrayStart));
    assert_eq!(t.next(), Ok(PDFToken::Name(b"X".to_vec())));
}

#[test]
fn booleans_and_null() {
    let mut t = tokenizer_in(b"true false null]", TokenizerState::ListValue);
    assert_eq!(t.next(), Ok(PDFToken::Boolean(true)));
    assert_eq!(t.next(), Ok(PDFToken::Boolean(false)));
    assert_eq!(t.next(), Ok(PDFToken::Null));
    assert_eq!(t.next(), Ok(PDFToken::ArrayEnd));
    let mut t = tokenizer_in(b"/K null /L true>>", TokenizerState::DictionaryKey);
    assert_eq!(t.next(), Ok(PDFToken::Name(b"K".to_vec())));
    assert_eq!(t.next(), Ok(PDFToken::Null));
    assert_eq!(t.get_state(), TokenizerState::DictionaryKey);
    assert_eq!(t.next(), Ok(PDFToken::Name(b"L".to_vec())));
    assert_eq!(t.next(), Ok(PDFToken::Boolean(true)));
    assert_eq!(t.next(), Ok(PDFToken::DictionaryEnd));
}

#[test]
fn white_space_is_six_octets() {
    let mut t = tokenizer_in(&[0x20, 0x0A, 0x0D, 0x09, 0x0C, 0x00, b']'], TokenizerState::ListValue);
    assert_eq!(t.next(), Ok(PDFToken::ArrayEnd));
    let mut t = tokenizer_in(&[0x0B, b']'], TokenizerState::ListValue);
    assert_eq!(
        t.next(),
        Err(PdfError::UnexpectedByte { offset: 0, state: TokenizerState::ListValue, byte: 0x0B })
    );
}

#[test]
fn top_level_tokens() {
    let text = b"%PDF-1.4\n12 3 obj\n<< >>\nendobj\nxref\n0 1\n0000000017 00002 n \ntrailer\n<< >>\nstartxref\n42\n%%EOF\n";
    let mut t = Tokenizer::new(ByteCursor::new(text.to_vec()));
    assert_eq!(t.next(), Ok(PDFToken::Comment(b"PDF-1.4".to_vec())));
    assert_eq!(t.get_offset(), 9);
    assert_eq!(
        t.next(),
        Ok(PDFToken::ObjectHeader(PDFObjectHeader { object_number: 12, generation_number: 3 }))
    );
    assert_eq!(t.get_state(), TokenizerState::Object);
    assert_eq!(t.next(), Ok(PDFToken::DictionaryStart));
    assert_eq!(t.next(), Ok(PDFToken::DictionaryEnd));
    assert_eq!(t.get_state(), TokenizerState::Object);
    assert_eq!(t.next(), Ok(PDFToken::ObjectEnd));
    assert_eq!(t.get_state(), TokenizerState::Start);
    assert_eq!(t.next(), Ok(PDFToken::XRefSectionBegin));
    assert_eq!(
        t.next(),
        Ok(PDFToken::XRefSubSectionHeader(XRefHeader { first_object_number: 0, num_entries: 1 }))
    );
    assert_eq!(
        t.get_xref_table(1),
        Ok(vec![XRefEntry { byte_offset: 17, generation_number: 2, free: false }])
    );
    assert_eq!(t.get_state(), TokenizerState::Start);
    assert_eq!(t.next(), Ok(PDFToken::TrailerBegin));
    assert_eq!(t.next(), Ok(PDFToken::DictionaryStart));
    assert_eq!(t.next(), Ok(PDFToken::DictionaryEnd));
    assert_eq!(t.get_state(), TokenizerState::Start);
    assert_eq!(t.next(), Ok(PDFToken::StartXRef(42)));
    assert_eq!(t.next(), Ok(PDFToken::DocumentEnd));
    assert_eq!(t.get_state(), TokenizerState::DocumentEnd);
    assert_eq!(
        t.next(),
        Err(PdfError::StateViolation { cause: Violation::DocumentEnded })
    );
}

#[test]
fn xref_entries_of_twenty_bytes() {
    let mut t = tokenizer_in(
        b"0000000000 65535 f \r0000000123 00001 n\r\n",
        TokenizerState::XRefEntry,
    );
    assert_eq!(
        t.next(),
        Ok(PDFToken::XRefEntry(XRefEntry { byte_offset: 0, generation_number: 65535, free: true }))
    );
    assert_eq!(
        t.next(),
        Ok(PDFToken::XRefEntry(XRefEntry { byte_offset: 123, generation_number: 1, free: false }))
    );
    let mut t = tokenizer_in(b"0000000000 65535 x \n", TokenizerState::XRefEntry);
    assert_eq!(t.next(), Err(PdfError::XRefFormat { cause: XRefFault::BadEntry }));
    let mut t = tokenizer_in(b"000000000 65535 f \n", TokenizerState::XRefEntry);
    assert_eq!(t.next(), Err(PdfError::XRefFormat { cause: XRefFault::BadEntry }));
}

#[test]
fn xref_table_fails_as_a_whole() {
    let mut t = tokenizer_in(b"0000000000 65535 f \n0000000000 65535 f", TokenizerState::XRefEntry);
    assert_eq!(t.get_xref_table(2), Err(PdfError::XRefFormat { cause: XRefFault::BadEntry }));
    assert_eq!(t.get_offset(), 0);
    assert_eq!(t.get_state(), TokenizerState::XRefEntry);
    let mut t = tokenizer_in(b"", TokenizerState::Start);
    assert_eq!(
        t.get_xref_table(0),
        Err(PdfError::StateViolation { cause: Violation::NotInXRefTable })
    );
}

#[test]
fn lifted_entries() {
    let free = XRefEntry { byte_offset: 3, generation_number: 65535, free: true };
    let used = XRefEntry { byte_offset: 17, generation_number: 0, free: false };
    assert_eq!(free.lift(), XRefStreamEntry::Free { next_free_obj: 3, next_gen: 65535 });
    assert_eq!(used.lift(), XRefStreamEntry::Uncompressed { offset: 17, gen: 0 });
}

#[test]
fn stream_keyword_takes_one_line_end() {
    let mut t = tokenizer_in(b"stream\r\n\nabc", TokenizerState::Object);
    assert_eq!(t.next(), Ok(PDFToken::StreamBegin));
    assert_eq!(t.get_offset(), 8);
    assert_eq!(t.get_state(), TokenizerState::Stream);
    assert_eq!(t.next(), Err(PdfError::StateViolation { cause: Violation::InStreamBody }));
    assert_eq!(t.get_stream(2), Ok(vec![b'\n', b'a']));
    assert_eq!(t.get_state(), TokenizerState::StreamEnd);
    let mut t = tokenizer_in(b"stream abc", TokenizerState::Object);
    assert_eq!(
        t.next(),
        Err(PdfError::UnexpectedByte { offset: 6, state: TokenizerState::Object, byte: b' ' })
    );
}

#[test]
fn stream_bytes_need_the_stream_state_and_enough_bytes() {
    let mut t = tokenizer_in(b"abc", TokenizerState::Object);
    assert_eq!(
        t.get_stream(1),
        Err(PdfError::StateViolation { cause: Violation::NotInStreamBody })
    );
    let mut t = tokenizer_in(b"abc", TokenizerState::Stream);
    assert_eq!(t.get_stream(4), Err(PdfError::UnexpectedEnd { offset: 3 }));
    assert_eq!(t.get_offset(), 0);
    assert_eq!(t.get_stream(3), Ok(b"abc".to_vec()));
    assert_eq!(t.get_stream(0), Err(PdfError::StateViolation { cause: Violation::NotInStreamBody }));
}

#[test]
fn empty_state_stack_is_a_violation() {
    let mut t = Tokenizer::new(ByteCursor::new(b"abc".to_vec()));
    assert_eq!(t.pop_state(), TokenizerState::Start);
    assert_eq!(t.next(), Err(PdfError::StateViolation { cause: Violation::EmptyStateStack }));
    assert_eq!(t.peak_next(), Err(PdfError::StateViolation { cause: Violation::EmptyStateStack }));
}

#[test]
fn unexpected_bytes_by_state() {
    let mut t = tokenizer_in(b" ?", TokenizerState::Start);
    assert_eq!(
        t.next(),
        Err(PdfError::UnexpectedByte { offset: 1, state: TokenizerState::Start, byte: b'?' })
    );
    let mut t = tokenizer_in(b"12", TokenizerState::Object);
    assert_eq!(
        t.next(),
        Err(PdfError::UnexpectedByte { offset: 0, state: TokenizerState::Object, byte: b'1' })
    );
    let mut t = tokenizer_in(b"<x", TokenizerState::Trailer);
    assert_eq!(
        t.next(),
        Err(PdfError::UnexpectedByte { offset: 1, state: TokenizerState::Trailer, byte: b'x' })
    );
    let mut t = tokenizer_in(b">x", TokenizerState::DictionaryKey);
    assert_eq!(
        t.next(),
        Err(PdfError::UnexpectedByte { offset: 1, state: TokenizerState::DictionaryKey, byte: b'x' })
    );
    let mut t = tokenizer_in(b"endobj", TokenizerState::StreamEnd);
    assert_eq!(
        t.next(),
        Err(PdfError::UnexpectedByte { offset: 0, state: TokenizerState::StreamEnd, byte: b'e' })
    );
    let mut t = tokenizer_in(b"   ", TokenizerState::Object);
    assert_eq!(t.next(), Err(PdfError::UnexpectedEnd { offset: 3 }));
}

#[test]
fn object_header_needs_two_numbers_and_obj() {
    let mut t = Tokenizer::new(ByteCursor::new(b"1 x obj".to_vec()));
    assert_eq!(t.next(), Err(PdfError::BadNumber { offset: 0 }));
    assert_eq!(t.get_state(), TokenizerState::Start);
    let mut t = Tokenizer::new(ByteCursor::new(b"1 0 obx".to_vec()));
    assert_eq!(
        t.next(),
        Err(PdfError::UnexpectedByte { offset: 4, state: TokenizerState::Start, byte: b'o' })
    );
    let mut t = Tokenizer::new(ByteCursor::new(b"7 1 obj<<".to_vec()));
    assert_eq!(
        t.read_object_header(),
        Ok(PDFObjectHeader { object_number: 7, generation_number: 1 })
    );
    assert_eq!(t.get_offset(), 7);
}

#[test]
fn helper_reads() {
    let mut t = Tokenizer::new(ByteCursor::new(b"ab cd\nrest 12 0 R  -4.5 x".to_vec()));
    assert_eq!(t.next_char(), Some(b'a'));
    assert_eq!(t.read_until(vec![b' ', b'\n'], true), b"b".to_vec());
    assert_eq!(t.get_offset(), 2);
    assert_eq!(t.read_until(vec![b'\n'], false), b" cd".to_vec());
    assert_eq!(t.get_offset(), 6);
    assert_eq!(t.read_n_chars(4), Ok(b"rest".to_vec()));
    assert_eq!(t.read_n_chars(100), Err(PdfError::UnexpectedEnd { offset: 25 }));
    t.consume_whitespace();
    assert_eq!(t.get_offset(), 11);
    assert_eq!(
        t.read_object_reference(),
        Ok(PDFToken::ObjectReference(PDFObjectHeader { object_number: 12, generation_number: 0 }))
    );
    assert_eq!(t.read_object_reference(), Err(PdfError::BadNumber { offset: 17 }));
    assert_eq!(t.read_number(), Ok(Decimal { negative: true, mantissa: 45, scale: 1 }));
    assert_eq!(t.get_offset(), 23);
    assert_eq!(t.read_number(), Err(PdfError::BadNumber { offset: 24 }));
    assert_eq!(t.get_offset(), 23);
    assert_eq!(t.read_comment(), b" x".to_vec());
    assert_eq!(t.next_char(), None);
}

#[test]
fn comment_is_trimmed_and_ends_at_the_line_end() {
    let mut t = Tokenizer::new(ByteCursor::new(b"%  hello world \r\n%%EOF".to_vec()));
    assert_eq!(t.next(), Ok(PDFToken::Comment(b"hello world".to_vec())));
    assert_eq!(t.get_offset(), 17);
    assert_eq!(t.next(), Ok(PDFToken::DocumentEnd));
}

#[test]
fn token_patterns() {
    assert!(b"PDF-1.4".to_vec().is_version());
    assert!(!b"PDF-14".to_vec().is_version());
    assert!(!b"PDF-1.4 ".to_vec().is_version());
    assert!(b"123".to_vec().is_positive_int());
    assert!(!b"-123".to_vec().is_positive_int());
    assert!(!b"".to_vec().is_positive_int());
    assert!(b"-123".to_vec().is_int());
    assert!(!b"1.5".to_vec().is_int());
    assert!(b"-1.5".to_vec().is_float());
    assert!(b"15".to_vec().is_float());
    assert!(!b"1.".to_vec().is_float());
    assert!(b"/Name".to_vec().is_name());
    assert!(!b"/".to_vec().is_name());
    assert!(b"12 0 obj".to_vec().is_object());
    assert!(!b"12 0 R".to_vec().is_object());
    assert!(b"% text".to_vec().is_comment());
    assert!(!b"text".to_vec().is_comment());
    // A byte above 0x7F is one character, never part of a digit.
    assert!(!vec![0xD9u8, 0xA0].is_positive_int());
}

#[test]
fn labels_are_ordered_by_number_then_generation() {
    let a = PDFObjectHeader { object_number: 1, generation_number: 9 };
    let b = PDFObjectHeader { object_number: 2, generation_number: 0 };
    let c = PDFObjectHeader { object_number: 2, generation_number: 1 };
    assert!(a < b);
    assert!(b < c);
    assert!(a < c);
    assert_eq!(b, PDFObjectHeader { object_number: 2, generation_number: 0 });
}
