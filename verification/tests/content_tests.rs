use pdf_reader::content_stream_lexer::{parse, ContentToken, Matrix};
use pdf_reader::error::{PdfError, Place, ValueKind, Violation};
use pdf_reader::number::Decimal;
use pdf_reader::page::text_of_content;
use pdf_reader::text::{compile_grouped_text, get_text_objects, PositionedText, TextObjectContent};

fn whole(value: u64) -> Decimal {
    Decimal { negative: false, mantissa: value, scale: 0 }
}

fn moved_to(x: u64, y: u64) -> Matrix {
    Matrix { a: whole(1), b: whole(0), c: whole(0), d: whole(1), e: whole(x), f: whole(y) }
}

fn as_float(d: &Decimal) -> f64 {
    let magnitude = d.mantissa as f64 / 10f64.powi(d.scale as i32);
    if d.negative {
        -magnitude
    } else {
        magnitude
    }
}

#[test]
fn every_operator_becomes_its_token() {
    let source = b"q 1 0 0 1 5 6 cm 2.5 w 1 2 m 3 4 l S n f* 0.5 G 0.25 g 1 i /Tag BMC EMC /P << /MCID 3 >> BDC BT ET 1 0 0 1 7 8 Tm /F1 12 Tf (Hi)Tj /Im1 Do Q";
    let tokens = parse(source).unwrap();
    assert_eq!(
        tokens,
        vec![
            ContentToken::SaveGraphicsState,
            ContentToken::Cm(moved_to(5, 6)),
            ContentToken::LineWidth(Decimal { negative: false, mantissa: 25, scale: 1 }),
            ContentToken::Move((whole(1), whole(2))),
            ContentToken::Line((whole(3), whole(4))),
            ContentToken::StrokePath,
            ContentToken::EndPath,
            ContentToken::FillPathEvenOdd,
            ContentToken::StrokingColorSpaceGrey(Decimal { negative: false, mantissa: 5, scale: 1 }),
            ContentToken::ColorSpaceGrey(Decimal { negative: false, mantissa: 25, scale: 2 }),
            ContentToken::SetFlatnessTolerance(whole(1)),
            ContentToken::BeginMarkedContent(b"Tag".to_vec()),
            ContentToken::EndMarkedContent,
            ContentToken::BeginMarkedContentWithProperties(
                b"P".to_vec(),
                vec![(b"MCID".to_vec(), whole(3))],
            ),
            ContentToken::BeginTextObject,
            ContentToken::EndTextObject,
            ContentToken::SetTextMatrix(moved_to(7, 8)),
            ContentToken::TextFont((b"F1".to_vec(), whole(12))),
            ContentToken::ShowTextString(b"Hi".to_vec()),
            ContentToken::PaintXObject(b"Im1".to_vec()),
            ContentToken::RestoreGraphicsState,
        ]
    );
}

#[test]
fn empty_content_stream_has_no_tokens() {
    assert_eq!(parse(b""), Ok(Vec::new()));
    assert_eq!(parse(b" \n\t "), Ok(Vec::new()));
}

#[test]
fn unknown_operator_is_an_error() {
    assert_eq!(parse(b"q 1 0 0 rg"), Err(PdfError::UnsupportedOperator { offset: 8 }));
    assert_eq!(parse(b"q ]"), Err(PdfError::UnsupportedOperator { offset: 2 }));
}

#[test]
fn operands_must_fit_the_operator() {
    assert_eq!(
        parse(b"1 m"),
        Err(PdfError::TypeMismatch {
            place: Place::Operand,
            expected: ValueKind::Number,
            got: ValueKind::Null
        })
    );
    assert_eq!(
        parse(b"/F1 (x) Tf"),
        Err(PdfError::TypeMismatch {
            place: Place::Operand,
            expected: ValueKind::Number,
            got: ValueKind::String
        })
    );
    assert_eq!(
        parse(b"12 Tj"),
        Err(PdfError::TypeMismatch {
            place: Place::Operand,
            expected: ValueKind::String,
            got: ValueKind::Number
        })
    );
}

#[test]
fn operands_left_at_the_end_are_an_error() {
    assert_eq!(parse(b"q 1 2"), Err(PdfError::UnexpectedEnd { offset: 5 }));
    assert_eq!(parse(b"1 2 3 m"), Err(PdfError::UnexpectedEnd { offset: 7 }));
}

#[test]
fn operator_takes_operands_from_the_top() {
    let tokens = parse(b"9 1 2 m 3 l").unwrap();
    assert_eq!(
        tokens,
        vec![ContentToken::Move((whole(1), whole(2))), ContentToken::Line((whole(9), whole(3)))]
    );
}

#[test]
fn strings_in_content_use_the_same_escapes() {
    assert_eq!(
        parse(b"(a\\(b\\051\\n(c))Tj"),
        Ok(vec![ContentToken::ShowTextString(b"a(b)\n(c)".to_vec())])
    );
    assert_eq!(parse(b"(a\\x)Tj"), Err(PdfError::BadEscape { offset: 3, byte: b'x' }));
    assert_eq!(parse(b"(a"), Err(PdfError::UnexpectedEnd { offset: 2 }));
    assert_eq!(parse(b"1..2 w"), Err(PdfError::BadNumber { offset: 0 }));
}

#[test]
fn properties_are_names_with_numbers() {
    assert_eq!(
        parse(b"/A <</X 1/Y -2.5>>BDC"),
        Ok(vec![ContentToken::BeginMarkedContentWithProperties(
            b"A".to_vec(),
            vec![
                (b"X".to_vec(), whole(1)),
                (b"Y".to_vec(), Decimal { negative: true, mantissa: 25, scale: 1 }),
            ],
        )])
    );
    assert_eq!(
        parse(b"/A << >> BDC"),
        Ok(vec![ContentToken::BeginMarkedContentWithProperties(b"A".to_vec(), Vec::new())])
    );
    assert_eq!(parse(b"/A << /X /Y >> BDC"), Err(PdfError::BadNumber { offset: 9 }));
    assert_eq!(parse(b"/A << 1 >> BDC"), Err(PdfError::UnsupportedOperator { offset: 6 }));
    assert_eq!(parse(b"/A << /X 1"), Err(PdfError::UnexpectedEnd { offset: 10 }));
}

#[test]
fn two_text_objects_on_one_page() {
    let source =
        b"BT /F1 12 Tf 1 0 0 1 10 20 Tm (A)Tj ET BT /F1 12 Tf 1 0 0 1 30 40 Tm (B)Tj ET";
    let objects = text_of_content(source).unwrap();
    assert_eq!(objects.len(), 2);
    assert_eq!(objects[0].positioned_text.len(), 1);
    assert_eq!(objects[0].positioned_text[0].text, b"A".to_vec());
    assert_eq!(as_float(&objects[0].positioned_text[0].x), 10.0);
    assert_eq!(as_float(&objects[0].positioned_text[0].y), 20.0);
    assert_eq!(objects[1].positioned_text.len(), 1);
    assert_eq!(objects[1].positioned_text[0].text, b"B".to_vec());
    assert_eq!(as_float(&objects[1].positioned_text[0].x), 30.0);
    assert_eq!(as_float(&objects[1].positioned_text[0].y), 40.0);
    assert_eq!(compile_grouped_text(&objects), vec![b"A".to_vec(), b"B".to_vec()]);
}

#[test]
fn runs_take_the_matrix_that_was_last_set() {
    let objects = text_of_content(b"BT 1 0 0 1 1 2 Tm (a)Tj (b)Tj 1 0 0 1 3.5 -4 Tm (c)Tj ET").unwrap();
    assert_eq!(
        objects,
        vec![TextObjectContent {
            positioned_text: vec![
                PositionedText { text: b"a".to_vec(), x: whole(1), y: whole(2) },
                PositionedText { text: b"b".to_vec(), x: whole(1), y: whole(2) },
                PositionedText {
                    text: b"c".to_vec(),
                    x: Decimal { negative: false, mantissa: 35, scale: 1 },
                    y: Decimal { negative: true, mantissa: 4, scale: 0 },
                },
            ]
        }]
    );
    assert_eq!(compile_grouped_text(&objects), vec![b"abc".to_vec()]);
}

#[test]
fn tokens_outside_text_objects_are_passed_over() {
    let tokens = parse(b"q 1 0 0 1 1 2 Tm (x)Tj /F1 1 Tf BT ET Q").unwrap();
    let objects = get_text_objects(&tokens).unwrap();
    assert_eq!(objects, vec![TextObjectContent { positioned_text: Vec::new() }]);
    assert_eq!(compile_grouped_text(&objects), vec![Vec::<u8>::new()]);
    assert_eq!(get_text_objects(&Vec::new()), Ok(Vec::new()));
}

#[test]
fn text_object_that_is_not_closed_is_not_emitted() {
    let objects = text_of_content(b"BT ET BT 1 0 0 1 1 2 Tm (x)Tj").unwrap();
    assert_eq!(objects, vec![TextObjectContent { positioned_text: Vec::new() }]);
}

#[test]
fn text_state_violations() {
    assert_eq!(
        text_of_content(b"BT BT"),
        Err(PdfError::StateViolation { cause: Violation::NestedTextObject })
    );
    assert_eq!(
        text_of_content(b"ET"),
        Err(PdfError::StateViolation { cause: Violation::UnopenedTextObject })
    );
    assert_eq!(
        text_of_content(b"BT (x)Tj ET"),
        Err(PdfError::StateViolation { cause: Violation::NoTextMatrix })
    );
    assert_eq!(
        text_of_content(b"BT 1 0 0 1 1 2 Tm ET BT (x)Tj ET"),
        Err(PdfError::StateViolation { cause: Violation::NoTextMatrix })
    );
    assert_eq!(
        text_of_content(b"BT q ET"),
        Err(PdfError::StateViolation { cause: Violation::OperatorInTextObject })
    );
}
