use pdf_reader::cursor::ByteCursor;
use pdf_reader::error::{Expected, PdfError, Place, TokenKind, ValueKind, Violation, XRefFault};
use pdf_reader::number::Decimal;
use pdf_reader::pdf::{ObjectTable, PDFDictionary, PDFObject, PDFStream, PDFValue};
use pdf_reader::reader::{open, Reader};
use pdf_reader::tokenizer::{
    PDFObjectHeader, PDFTokenize, Tokenizer, TokenizerState, XRefHeader, XRefSection,
    XRefStreamEntry,
};
use std::io::Write;

fn whole(value: u64) -> PDFValue {
    PDFValue::Number(Decimal { negative: false, mantissa: value, scale: 0 })
}

fn id(number: u64) -> PDFObjectHeader {
    PDFObjectHeader { object_number: number, generation_number: 0 }
}

fn as_float(d: &Decimal) -> f64 {
    let magnitude = d.mantissa as f64 / 10f64.powi(d.scale as i32);
    if d.negative {
        -magnitude
    } else {
        magnitude
    }
}

fn deflate(data: &[u8]) -> Vec<u8> {
    let mut encoder = flate2::write::ZlibEncoder::new(Vec::new(), flate2::Compression::default());
    encoder.write_all(data).unwrap();
    encoder.finish().unwrap()
}

fn reader_in(bytes: &[u8], state: TokenizerState) -> Reader<Tokenizer> {
    let mut tokenizer = Tokenizer::new(ByteCursor::new(bytes.to_vec()));
    tokenizer.pop_state();
    tokenizer.push_state(state);
    Reader::new(tokenizer)
}

fn reader_of(bytes: &[u8]) -> Reader<Tokenizer> {
    Reader::new(Tokenizer::new(ByteCursor::new(bytes.to_vec())))
}

fn stream_object(number: u64, entries: &str, data: &[u8]) -> Vec<u8> {
    let mut out: Vec<u8> = Vec::new();
    out.extend_from_slice(
        format!("{} 0 obj\n<< /Length {} {} >>\nstream\n", number, data.len(), entries).as_bytes(),
    );
    out.extend_from_slice(data);
    out.extend_from_slice(b"\nendstream\nendobj\n");
    out
}

fn classical_document(contents: &[u8], page_contents: &str, extra: &[u8]) -> Vec<u8> {
    let mut out: Vec<u8> = Vec::new();
    out.extend_from_slice(b"%PDF-1.4\n");
    out.extend_from_slice(b"1 0 obj\n<< /Type /Catalog /Pages 2 0 R >>\nendobj\n");
    out.extend_from_slice(b"2 0 obj\n<< /Type /Pages /Kids [3 0 R] /Count 1 >>\nendobj\n");
    out.extend_from_slice(
        format!("3 0 obj\n<< /Type /Page /Parent 2 0 R /Contents {} >>\nendobj\n", page_contents)
            .as_bytes(),
    );
    out.extend_from_slice(&stream_object(4, "/Filter /FlateDecode", &deflate(contents)));
    out.extend_from_slice(extra);
    out.extend_from_slice(b"xref\n0 2\n0000000000 65535 f \n0000000009 00000 n \n");
    out.extend_from_slice(b"trailer\n<< /Size 5 /Root 1 0 R >>\nstartxref\n0\n%%EOF\n");
    out
}

#[test]
fn nested_dictionaries() {
    let mut reader = reader_in(b"<< /A << /B 1 >> /C 2 >> endobj", TokenizerState::Object);
    let value = reader.parse_value().unwrap();
    let outer = value.dictionary().unwrap();
    assert_eq!(outer.entries.len(), 2);
    let inner = outer.get(b"A").unwrap().dictionary().unwrap();
    assert_eq!(inner.entries.len(), 1);
    assert_eq!(inner.get(b"B"), Some(&whole(1)));
    assert_eq!(outer.get(b"C"), Some(&whole(2)));
    assert_eq!(outer.get(b"B"), None);
    assert_eq!(reader.tokenizer.get_state(), TokenizerState::Object);
}

#[test]
fn nested_array_in_dictionary() {
    let mut reader = reader_in(b"<< /W [1 2 1] >> endobj", TokenizerState::Object);
    let value = reader.parse_value().unwrap();
    let dictionary = value.dictionary().unwrap();
    assert_eq!(dictionary.entries.len(), 1);
    let widths = dictionary.get(b"W").unwrap();
    assert_eq!(widths.array(), &vec![whole(1), whole(2), whole(1)]);
}

#[test]
fn reference_and_numbers() {
    let mut reader = reader_in(b"<< /K 3 0 R >> endobj", TokenizerState::Object);
    let value = reader.parse_value().unwrap();
    let k = value.dictionary().unwrap().get(b"K").unwrap();
    assert_eq!(k.object_reference(), &id(3));
    let mut reader = reader_in(b"[ /K 3 0 ] endobj", TokenizerState::Object);
    assert_eq!(
        reader.parse_value(),
        Ok(PDFValue::Array(vec![PDFValue::Name(b"K".to_vec()), whole(3), whole(0)]))
    );
}

#[test]
fn values_of_every_kind() {
    let mut reader = reader_in(
        b"[ true false null 1.5 (s) <4142> /N 7 0 R [ ] << >> ] endobj",
        TokenizerState::Object,
    );
    assert_eq!(
        reader.parse_value(),
        Ok(PDFValue::Array(vec![
            PDFValue::Boolean(true),
            PDFValue::Boolean(false),
            PDFValue::Null,
            PDFValue::Number(Decimal { negative: false, mantissa: 15, scale: 1 }),
            PDFValue::String(b"s".to_vec()),
            PDFValue::Bytes(vec![0x41, 0x42]),
            PDFValue::Name(b"N".to_vec()),
            PDFValue::ObjectReference(id(7)),
            PDFValue::Array(Vec::new()),
            PDFValue::Dictionary(PDFDictionary { entries: Vec::new() }),
        ]))
    );
}

#[test]
fn later_key_wins() {
    let mut reader = reader_in(b"<< /A 1 /B 2 /A 3 >> endobj", TokenizerState::Object);
    let value = reader.parse_value().unwrap();
    let dictionary = value.dictionary().unwrap();
    assert_eq!(dictionary.get(b"A"), Some(&whole(3)));
    assert_eq!(dictionary.get(b"B"), Some(&whole(2)));
}

#[test]
fn stream_has_the_stated_length() {
    let mut reader =
        reader_in(b"<< /Length 5 >>\nstream\nab\ncd\nendstream\nendobj", TokenizerState::Object);
    let value = reader.parse_value().unwrap();
    let stream = value.stream().unwrap();
    assert_eq!(stream.bytes, b"ab\ncd".to_vec());
    assert_eq!(stream.dictionary.get(b"Length"), Some(&whole(5)));
    assert_eq!(stream.decompress(), Ok(b"ab\ncd".to_vec()));
    assert_eq!(reader.tokenizer.get_state(), TokenizerState::Object);
}

#[test]
fn stream_errors() {
    let mut reader = reader_in(b"<< >>\nstream\nab\nendstream", TokenizerState::Object);
    assert_eq!(reader.parse_value(), Err(PdfError::MissingDictEntry { key: Place::Length }));
    let mut reader = reader_in(b"<< /Length /X >>\nstream\nab\nendstream", TokenizerState::Object);
    assert_eq!(
        reader.parse_value(),
        Err(PdfError::TypeMismatch {
            place: Place::Length,
            expected: ValueKind::Number,
            got: ValueKind::Name
        })
    );
    let mut reader = reader_in(b"<< /Length 50 >>\nstream\nab\nendstream", TokenizerState::Object);
    assert_eq!(reader.parse_value(), Err(PdfError::UnexpectedEnd { offset: 36 }));
    let mut reader = reader_in(b"<< /Length 1 >>\nstream\nab\nendstream", TokenizerState::Object);
    assert_eq!(
        reader.parse_value(),
        Err(PdfError::UnexpectedByte { offset: 24, state: TokenizerState::StreamEnd, byte: b'b' })
    );
}

#[test]
fn unexpected_tokens() {
    let mut reader = reader_in(b"<< 1 >>", TokenizerState::Object);
    assert_eq!(
        reader.parse_value(),
        Err(PdfError::UnexpectedByte { offset: 3, state: TokenizerState::DictionaryKey, byte: b'1' })
    );
    let mut reader = reader_in(b"endobj", TokenizerState::Object);
    assert_eq!(
        reader.parse_value(),
        Err(PdfError::UnexpectedToken {
            offset: 6,
            expected: Expected::Value,
            got: TokenKind::ObjectEnd
        })
    );
    let mut reader = reader_in(b"(a) (b)", TokenizerState::Object);
    assert_eq!(
        reader.parse_object(0, &id(1)),
        Err(PdfError::UnexpectedToken {
            offset: 7,
            expected: Expected::ObjectEnd,
            got: TokenKind::String
        })
    );
    let mut reader = reader_of(b"trailer\n<< >>\ntrailer\n<< >>");
    assert_eq!(reader.parse_item(), Ok(false));
    assert_eq!(reader.parse_item(), Ok(false));
    assert_eq!(reader.parse(), Err(PdfError::UnexpectedEnd { offset: 27 }));
}

#[test]
fn classical_table_and_trailer() {
    let mut reader = reader_of(
        b"%PDF-1.7\n% note\nxref\n3 2\n0000000000 65535 f \n0000000017 00001 n \ntrailer\n<< /Size 5 >>\nstartxref\n99\n%%EOF",
    );
    assert_eq!(reader.parse(), Ok(()));
    assert_eq!(reader.pdf.version, Some(b"PDF-1.7".to_vec()));
    assert_eq!(reader.pdf.startxref, Some(99));
    assert_eq!(
        reader.pdf.xref_table,
        Some(XRefSection {
            header: Some(XRefHeader { first_object_number: 3, num_entries: 2 }),
            entries: vec![
                XRefStreamEntry::Free { next_free_obj: 0, next_gen: 65535 },
                XRefStreamEntry::Uncompressed { offset: 17, gen: 1 },
            ],
        })
    );
    assert_eq!(reader.pdf.trailer.as_ref().unwrap().get(b"Size"), Some(&whole(5)));
    assert_eq!(
        reader.build_tree(),
        Err(PdfError::XRefFormat { cause: XRefFault::NoRoot })
    );
}

#[test]
fn trailer_must_be_a_dictionary() {
    let mut reader = reader_of(b"trailer\n<< /A [ ] >>\n%%EOF");
    assert_eq!(reader.parse(), Ok(()));
    let mut reader = reader_of(b"xref\ntrailer");
    assert_eq!(
        reader.parse(),
        Err(PdfError::XRefFormat { cause: XRefFault::BadEntry })
    );
}

#[test]
fn objects_are_kept_by_label_and_offset() {
    let mut reader = reader_of(b"%PDF-1.4\n1 0 obj\n(one)\nendobj\n2 0 obj\n(two)\nendobj\n1 0 obj\n(again)\nendobj\n%%EOF");
    assert_eq!(reader.parse(), Ok(()));
    assert_eq!(
        reader.get_object_by_reference(&id(1)),
        Some(PDFObject { header: id(1), value: PDFValue::String(b"again".to_vec()), offset: 51 })
    );
    assert_eq!(
        reader.get_object_by_reference(&id(2)),
        Some(PDFObject { header: id(2), value: PDFValue::String(b"two".to_vec()), offset: 30 })
    );
    assert_eq!(reader.get_object_by_reference(&id(3)), None);
    assert_eq!(
        reader.get_object_at_offset(30),
        Some(PDFObject { header: id(2), value: PDFValue::String(b"two".to_vec()), offset: 30 })
    );
    // The first definition of object 1 gave way to the later one.
    assert_eq!(reader.get_object_at_offset(9), None);
    assert_eq!(reader.get_object_at_offset(51).unwrap().header, id(1));
}

#[test]
fn minimal_document() {
    let document =
        classical_document(b"BT /F1 12 Tf 1 0 0 1 72 720 Tm (Hello)Tj ET", "4 0 R", b"");
    let mut reader = reader_of(&document);
    assert_eq!(reader.read(), Ok(()));
    assert_eq!(reader.pdf.version, Some(b"PDF-1.4".to_vec()));
    assert_eq!(reader.pdf.pages.len(), 1);
    assert_eq!(reader.pdf.root.as_ref().unwrap().header, id(1));
    assert_eq!(reader.pdf.pages[0].object.header, id(3));
    assert_eq!(reader.pdf.pages[0].contents.header, id(4));
    let text = reader.pdf.pages[0].get_text().unwrap();
    assert_eq!(text.len(), 1);
    assert_eq!(text[0].positioned_text.len(), 1);
    assert_eq!(text[0].positioned_text[0].text, b"Hello".to_vec());
    assert_eq!(as_float(&text[0].positioned_text[0].x), 72.0);
    assert_eq!(as_float(&text[0].positioned_text[0].y), 720.0);
}

#[test]
fn open_reads_a_document_as_a_whole() {
    let document =
        classical_document(b"BT /F1 12 Tf 1 0 0 1 72 720 Tm (Hello)Tj ET", "4 0 R", b"");
    let pdf = open(ByteCursor::new(document.clone())).unwrap();
    assert_eq!(pdf.pages().len(), 1);
    let text = pdf.text_on(0).unwrap();
    assert_eq!(text.len(), 1);
    assert_eq!(text[0].positioned_text[0].text, b"Hello".to_vec());
    assert_eq!(as_float(&text[0].positioned_text[0].x), 72.0);
    assert_eq!(as_float(&text[0].positioned_text[0].y), 720.0);
    assert_eq!(
        pdf.text_on(1),
        Err(PdfError::StateViolation { cause: Violation::NoSuchPage })
    );
    // Without its last line the document does not end.
    let cut = &document[..document.len() - 6];
    assert_eq!(
        open(ByteCursor::new(cut.to_vec())),
        Err(PdfError::UnexpectedEnd { offset: cut.len() as u64 })
    );
    assert_eq!(
        open(ByteCursor::new(b"%PDF-1.4\n%%EOF".to_vec())),
        Err(PdfError::XRefFormat { cause: XRefFault::NoRoot })
    );
}

#[test]
fn contents_given_as_an_array_are_merged() {
    let second = stream_object(5, "", b"(two)Tj ET");
    let document = classical_document(b"BT 1 0 0 1 1 2 Tm (one)Tj", "[4 0 R 5 0 R]", &second);
    let mut reader = reader_of(&document);
    assert_eq!(reader.read(), Ok(()));
    assert_eq!(reader.pdf.pages.len(), 1);
    let contents = reader.pdf.pages[0].contents.value.stream().unwrap();
    assert_eq!(contents.bytes, b"BT 1 0 0 1 1 2 Tm (one)Tj\n(two)Tj ET\n".to_vec());
    assert_eq!(contents.dictionary.get(b"Length"), Some(&whole(37)));
    let text = reader.pdf.pages[0].get_text().unwrap();
    assert_eq!(text.len(), 1);
    assert_eq!(text[0].positioned_text.len(), 2);
    assert_eq!(text[0].positioned_text[1].text, b"two".to_vec());
}

#[test]
fn root_by_way_of_a_cross_reference_stream() {
    let mut document: Vec<u8> = Vec::new();
    document.extend_from_slice(b"%PDF-1.5\n");
    document.extend_from_slice(b"1 0 obj\n<< /Type /Catalog /Pages 2 0 R >>\nendobj\n");
    document.extend_from_slice(b"2 0 obj\n<< /Type /Pages /Kids [3 0 R 6 0 R] >>\nendobj\n");
    document.extend_from_slice(b"3 0 obj\n<< /Type /Page /Contents 4 0 R >>\nendobj\n");
    document.extend_from_slice(&stream_object(4, "", b"BT 1 0 0 1 5 6 Tm (first)Tj ET"));
    document.extend_from_slice(b"6 0 obj\n<< /Type /Pages /Kids [7 0 R] >>\nendobj\n");
    document.extend_from_slice(b"7 0 obj\n<< /Type /Page /Contents 4 0 R >>\nendobj\n");
    let offset = document.len();
    let payload: [u8; 8] = [0x01, 0x00, 0x09, 0x00, 0x02, 0x00, 0x17, 0x03];
    document.extend_from_slice(&stream_object(
        5,
        "/Type /XRef /W [1 2 1] /Size 8 /Root 1 0 R /Filter /FlateDecode",
        &deflate(&payload),
    ));
    document.extend_from_slice(format!("startxref\n{}\n%%EOF\n", offset).as_bytes());
    let mut reader = reader_of(&document);
    assert_eq!(reader.read(), Ok(()));
    assert_eq!(
        reader.pdf.xref_table,
        Some(XRefSection {
            header: None,
            entries: vec![
                XRefStreamEntry::Uncompressed { offset: 9, gen: 0 },
                XRefStreamEntry::Compressed { parent_stream_obj: 0x17, index: 3 },
            ],
        })
    );
    assert_eq!(reader.pdf.root.as_ref().unwrap().header, id(1));
    assert_eq!(reader.pdf.pages.len(), 2);
    assert_eq!(reader.pdf.pages[0].object.header, id(3));
    assert_eq!(reader.pdf.pages[1].object.header, id(7));
    assert_eq!(reader.pdf.pages[1].get_text().unwrap()[0].positioned_text[0].text, b"first".to_vec());
}

#[test]
fn decompression_outcomes() {
    let mut with_filter = PDFDictionary::new();
    with_filter.insert(b"Filter".to_vec(), PDFValue::Name(b"FlateDecode".to_vec()));
    let good = PDFStream { dictionary: with_filter, bytes: deflate(b"some text") };
    assert_eq!(good.decompress(), Ok(b"some text".to_vec()));
    assert_ne!(good.decompress(), Ok(good.bytes.clone()));

    let mut with_filter = PDFDictionary::new();
    with_filter.insert(b"Filter".to_vec(), PDFValue::Name(b"FlateDecode".to_vec()));
    let bad = PDFStream { dictionary: with_filter, bytes: b"not compressed".to_vec() };
    assert_eq!(bad.decompress(), Err(PdfError::DecompressionFailure));
    assert_eq!(bad.decode_with(Some(vec![1, 2])), Ok(vec![1, 2]));
    assert_eq!(bad.decode_with(None), Err(PdfError::DecompressionFailure));

    let mut other_filter = PDFDictionary::new();
    other_filter.insert(b"Filter".to_vec(), PDFValue::Name(b"LZWDecode".to_vec()));
    let unknown = PDFStream { dictionary: other_filter, bytes: deflate(b"x") };
    assert_eq!(unknown.decompress(), Err(PdfError::UnknownFilter));
    assert_eq!(unknown.decode_with(Some(vec![1])), Err(PdfError::UnknownFilter));

    let mut list_filter = PDFDictionary::new();
    list_filter.insert(b"Filter".to_vec(), PDFValue::Array(Vec::new()));
    let listed = PDFStream { dictionary: list_filter, bytes: Vec::new() };
    assert_eq!(
        listed.decompress(),
        Err(PdfError::TypeMismatch {
            place: Place::Filter,
            expected: ValueKind::Name,
            got: ValueKind::Array
        })
    );

    let plain = PDFStream { dictionary: PDFDictionary::new(), bytes: b"as it is".to_vec() };
    assert_eq!(plain.decompress(), Ok(b"as it is".to_vec()));
    assert_eq!(plain.decode_with(None), Ok(b"as it is".to_vec()));
}

#[test]
fn value_accessors() {
    let name = PDFValue::Name(b"N".to_vec());
    assert_eq!(
        name.dictionary(),
        Err(PdfError::TypeMismatch {
            place: Place::Value,
            expected: ValueKind::Dictionary,
            got: ValueKind::Name
        })
    );
    assert_eq!(
        PDFValue::Null.stream(),
        Err(PdfError::TypeMismatch {
            place: Place::Value,
            expected: ValueKind::Stream,
            got: ValueKind::Null
        })
    );
    assert_eq!(PDFValue::ObjectReference(id(4)).object_reference(), &id(4));
    assert_eq!(PDFValue::Array(vec![PDFValue::Null]).array(), &vec![PDFValue::Null]);
    assert_eq!(PDFValue::Boolean(true).kind(), ValueKind::Boolean);
}

fn document_with_tree(nodes: &str) -> Vec<u8> {
    let mut out: Vec<u8> = Vec::new();
    out.extend_from_slice(b"1 0 obj\n<< /Pages 2 0 R >>\nendobj\n");
    out.extend_from_slice(nodes.as_bytes());
    out.extend_from_slice(b"trailer\n<< /Root 1 0 R >>\n%%EOF");
    out
}

#[test]
fn page_tree_errors() {
    let mut reader = reader_of(&document_with_tree(
        "2 0 obj\n<< /Kids [3 0 R] >>\nendobj\n3 0 obj\n<< /Kids [2 0 R] >>\nendobj\n",
    ));
    assert_eq!(reader.read(), Err(PdfError::StateViolation { cause: Violation::PageTreeCycle }));

    let mut reader = reader_of(&document_with_tree("2 0 obj\n<< /Kids [3 0 R] >>\nendobj\n"));
    assert_eq!(reader.read(), Err(PdfError::UnresolvedReference { id: id(3) }));

    let mut reader = reader_of(&document_with_tree("2 0 obj\n<< /Type /Pages >>\nendobj\n"));
    assert_eq!(reader.read(), Err(PdfError::MissingDictEntry { key: Place::Kids }));

    let mut reader = reader_of(&document_with_tree("2 0 obj\n<< /Kids [ 3 ] >>\nendobj\n"));
    assert_eq!(
        reader.read(),
        Err(PdfError::TypeMismatch {
            place: Place::Kids,
            expected: ValueKind::ObjectReference,
            got: ValueKind::Number
        })
    );

    let mut reader = reader_of(&document_with_tree(
        "2 0 obj\n<< /Kids [3 0 R] >>\nendobj\n3 0 obj\n<< /Type /Font >>\nendobj\n",
    ));
    assert_eq!(
        reader.read(),
        Err(PdfError::TypeMismatch {
            place: Place::Type,
            expected: ValueKind::Name,
            got: ValueKind::Name
        })
    );

    let mut reader = reader_of(&document_with_tree(
        "2 0 obj\n<< /Kids [3 0 R] >>\nendobj\n3 0 obj\n<< /Type /Page >>\nendobj\n",
    ));
    assert_eq!(reader.read(), Err(PdfError::MissingDictEntry { key: Place::Contents }));

    let mut reader = reader_of(&document_with_tree(
        "2 0 obj\n<< /Kids [3 0 R 3 0 R] >>\nendobj\n3 0 obj\n<< /Type /Page /Contents 1 0 R >>\nendobj\n",
    ));
    assert_eq!(reader.read(), Err(PdfError::StateViolation { cause: Violation::PageTreeCycle }));

    let mut reader = reader_of(&document_with_tree("2 0 obj\n(text)\nendobj\n"));
    assert_eq!(
        reader.read(),
        Err(PdfError::TypeMismatch {
            place: Place::PageTreeNode,
            expected: ValueKind::Dictionary,
            got: ValueKind::String
        })
    );
}

#[test]
fn page_whose_contents_is_no_stream_has_no_text() {
    let mut reader = reader_of(&document_with_tree(
        "2 0 obj\n<< /Kids [3 0 R] >>\nendobj\n3 0 obj\n<< /Type /Page /Contents 1 0 R >>\nendobj\n",
    ));
    assert_eq!(reader.read(), Ok(()));
    assert_eq!(reader.pdf.pages.len(), 1);
    assert_eq!(
        reader.pdf.pages[0].get_text(),
        Err(PdfError::TypeMismatch {
            place: Place::Contents,
            expected: ValueKind::Stream,
            got: ValueKind::Dictionary
        })
    );
}

#[test]
fn pages_come_in_the_order_of_the_tree() {
    let mut nodes = String::new();
    nodes.push_str("2 0 obj\n<< /Kids [3 0 R 4 0 R] >>\nendobj\n");
    nodes.push_str("3 0 obj\n<< /Kids [5 0 R 6 0 R] >>\nendobj\n");
    nodes.push_str("4 0 obj\n<< /Type /Page /Contents 1 0 R >>\nendobj\n");
    nodes.push_str("5 0 obj\n<< /Type /Page /Contents 1 0 R >>\nendobj\n");
    nodes.push_str("6 0 obj\n<< /Type /Page /Contents 1 0 R >>\nendobj\n");
    let mut reader = reader_of(&document_with_tree(&nodes));
    assert_eq!(reader.read(), Ok(()));
    let order: Vec<u64> =
        reader.pdf.pages.iter().map(|p| p.object.header.object_number).collect();
    assert_eq!(order, vec![5, 6, 4]);
}

#[test]
fn object_at_an_offset_is_the_one_with_the_least_label() {
    let mut table = ObjectTable::new();
    table.insert(PDFObject { header: id(5), value: PDFValue::Null, offset: 7 });
    table.insert(PDFObject { header: id(3), value: PDFValue::Boolean(true), offset: 7 });
    table.insert(PDFObject { header: id(4), value: PDFValue::Null, offset: 8 });
    assert_eq!(table.at_offset(7).unwrap().header, id(3));
    assert_eq!(table.copy_at_offset(8).unwrap().header, id(4));
    assert_eq!(table.count(), 3);
    table.insert(PDFObject { header: id(3), value: PDFValue::Null, offset: 9 });
    assert_eq!(table.at_offset(7).unwrap().header, id(5));
    assert_eq!(table.get(&id(3)).unwrap().offset, 9);
    assert_eq!(table.copy_of(&id(3)).unwrap().value, PDFValue::Null);
    assert_eq!(table.count(), 3);
    assert_eq!(table.find(&id(3)), Some(3));
    assert_eq!(table.find(&id(9)), None);
    assert!(table.defined_before(2, &id(3)));
    assert!(!table.defined_before(1, &id(3)));
    assert_eq!(ObjectTable::new().count(), 0);
}
