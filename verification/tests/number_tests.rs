use pdf_reader::number::{parse_decimal, parse_unsigned, Decimal};
use pdf_reader::strings::{decode_hex, read_escape, read_literal};
use pdf_reader::xref::{decode_xref_stream, read_u64};
use pdf_reader::error::{PdfError, XRefFault};
use pdf_reader::tokenizer::XRefStreamEntry;

fn as_float(d: &Decimal) -> f64 {
    let magnitude = d.mantissa as f64 / 10f64.powi(d.scale as i32);
    if d.negative {
        -magnitude
    } else {
        magnitude
    }
}

#[test]
fn unsigned_integers() {
    assert_eq!(parse_unsigned(b"0"), Some(0));
    assert_eq!(parse_unsigned(b"0000000042"), Some(42));
    assert_eq!(parse_unsigned(b"18446744073709551615"), Some(u64::MAX));
    assert_eq!(parse_unsigned(b"18446744073709551616"), None);
    assert_eq!(parse_unsigned(b""), None);
    assert_eq!(parse_unsigned(b"12a"), None);
    assert_eq!(parse_unsigned(b"-1"), None);
}

#[test]
fn decimals() {
    assert_eq!(parse_decimal(b"12"), Some(Decimal { negative: false, mantissa: 12, scale: 0 }));
    assert_eq!(parse_decimal(b"+12"), Some(Decimal { negative: false, mantissa: 12, scale: 0 }));
    assert_eq!(parse_decimal(b"-0.5"), Some(Decimal { negative: true, mantissa: 5, scale: 1 }));
    assert_eq!(parse_decimal(b".5"), Some(Decimal { negative: false, mantissa: 5, scale: 1 }));
    assert_eq!(parse_decimal(b"4."), Some(Decimal { negative: false, mantissa: 4, scale: 0 }));
    assert_eq!(parse_decimal(b"1.250"), Some(Decimal { negative: false, mantissa: 1250, scale: 3 }));
    assert_eq!(parse_decimal(b""), None);
    assert_eq!(parse_decimal(b"."), None);
    assert_eq!(parse_decimal(b"-"), None);
    assert_eq!(parse_decimal(b"1e5"), None);
    assert_eq!(parse_decimal(b"1.2.3"), None);
    assert_eq!(parse_decimal(b"--1"), None);
    assert_eq!(parse_decimal(b"1844674407370955161.6"), None);
    assert_eq!(as_float(&parse_decimal(b"-12.5").unwrap()), -12.5);
    assert_eq!(as_float(&parse_decimal(b"720").unwrap()), 720.0);
}

#[test]
fn decimal_to_unsigned_rounds_towards_zero() {
    assert_eq!(Decimal { negative: false, mantissa: 1259, scale: 2 }.to_u64(), 12);
    assert_eq!(Decimal { negative: false, mantissa: 7, scale: 0 }.to_u64(), 7);
    assert_eq!(Decimal { negative: true, mantissa: 7, scale: 0 }.to_u64(), 0);
    assert_eq!(Decimal { negative: false, mantissa: 5, scale: 1 }.to_u64(), 0);
    assert_eq!(Decimal { negative: false, mantissa: 5, scale: 4_000_000_000 }.to_u64(), 0);
    assert_eq!(Decimal { negative: false, mantissa: u64::MAX, scale: 0 }.to_u64(), u64::MAX);
    assert_eq!(Decimal::from_u64(99), Decimal { negative: false, mantissa: 99, scale: 0 });
}

#[test]
fn hex_digits_to_bytes() {
    assert_eq!(decode_hex(b"4A4B4"), Ok(vec![0x4A, 0x4B, 0x40]));
    assert_eq!(decode_hex(b"ff00Aa"), Ok(vec![0xFF, 0x00, 0xAA]));
    assert_eq!(decode_hex(b"4"), Ok(vec![0x40]));
    assert_eq!(decode_hex(b"4A4x"), Err(3));
}

#[test]
fn escapes() {
    assert_eq!(read_escape(b"\\n", 1), Ok((0x0A, 2)));
    assert_eq!(read_escape(b"\\1234", 1), Ok((0o123, 4)));
    assert_eq!(read_escape(b"\\18", 1), Ok((1, 2)));
    assert_eq!(read_escape(b"\\8", 1), Err(PdfError::BadEscape { offset: 1, byte: b'8' }));
    assert_eq!(read_escape(b"\\", 1), Err(PdfError::UnexpectedEnd { offset: 1 }));
    assert_eq!(read_literal(b"x(a\\)b)y", 1), Ok((b"a)b".to_vec(), 7)));
}

#[test]
fn big_endian_fields() {
    assert_eq!(read_u64(&[0x01, 0x02, 0x03], 0, 3), 0x010203);
    assert_eq!(read_u64(&[0x01, 0x02, 0x03], 1, 2), 0x0203);
    assert_eq!(read_u64(&[0x01, 0x02, 0x03], 1, 0), 0);
    assert_eq!(read_u64(&[0xFF; 8], 0, 8), u64::MAX);
}

#[test]
fn xref_stream_records() {
    let tape: [u8; 9] = [0x01, 0x00, 0x00, 0x00, 0x02, 0x00, 0x17, 0x00, 0x01];
    // Nine bytes are no whole number of records of four bytes.
    assert_eq!(
        decode_xref_stream(&[1, 2, 1], &tape),
        Err(PdfError::XRefFormat { cause: XRefFault::PartialRecord })
    );
    // The two whole records of the tape.
    assert_eq!(
        decode_xref_stream(&[1, 2, 1], &tape[..8]),
        Ok(vec![
            XRefStreamEntry::Uncompressed { offset: 0, gen: 0 },
            XRefStreamEntry::Compressed { parent_stream_obj: 0x0017, index: 0 },
        ])
    );
    // The tape as records of three bytes is three whole records.
    assert_eq!(
        decode_xref_stream(&[1, 1, 1], &tape[..6]),
        Ok(vec![
            XRefStreamEntry::Uncompressed { offset: 0, gen: 0 },
            XRefStreamEntry::Free { next_free_obj: 2, next_gen: 0 },
        ])
    );
    assert_eq!(
        decode_xref_stream(&[1, 1, 1], &tape),
        Err(PdfError::XRefFormat { cause: XRefFault::UnknownType })
    );
}

#[test]
fn xref_stream_without_a_type_field_is_of_type_one() {
    assert_eq!(
        decode_xref_stream(&[0, 2, 1], &[0x00, 0x17, 0x05, 0x01, 0x00, 0x00]),
        Ok(vec![
            XRefStreamEntry::Uncompressed { offset: 0x17, gen: 5 },
            XRefStreamEntry::Uncompressed { offset: 0x100, gen: 0 },
        ])
    );
}

#[test]
fn xref_stream_layout_faults() {
    assert_eq!(
        decode_xref_stream(&[1, 2], &[]),
        Err(PdfError::XRefFormat { cause: XRefFault::WidthCount })
    );
    assert_eq!(
        decode_xref_stream(&[1, 9, 1], &[]),
        Err(PdfError::XRefFormat { cause: XRefFault::FieldTooWide })
    );
    assert_eq!(
        decode_xref_stream(&[0, 0, 0], &[]),
        Err(PdfError::XRefFormat { cause: XRefFault::EmptyRecord })
    );
    assert_eq!(decode_xref_stream(&[1, 2, 1], &[]), Ok(Vec::new()));
    assert_eq!(
        decode_xref_stream(&[1, 2, 1], &[3, 0, 0, 0]),
        Err(PdfError::XRefFormat { cause: XRefFault::UnknownType })
    );
}
