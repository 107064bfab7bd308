//! The lexer of page content streams: operands are collected on a stack, and
//! each operator takes its operands from the top of the stack and becomes
//! one token.
use crate::error::{PdfError, Place, ValueKind};
use crate::lexer::{number_at, read_number_at, read_word, skip_ws, word_at, word_end};
use crate::number::Decimal;
use crate::scan::{copy_range, is_digit, is_digit_byte, lemma_run_end, scan_run, ByteClass};
use crate::strings::{literal_at, read_literal};
use vstd::prelude::*;

verus! {

/// The six numbers of a transformation matrix, in the order in which an
/// operator takes them. `e` and `f` are the position that the matrix moves
/// the origin to.
#[derive(Clone, Copy, Debug, PartialEq, Eq, Structural)]
pub struct Matrix {
    pub a: Decimal,
    pub b: Decimal,
    pub c: Decimal,
    pub d: Decimal,
    pub e: Decimal,
    pub f: Decimal,
}

/// An operator of a content stream with its operands.
#[derive(Debug, PartialEq)]
pub enum ContentToken {
    Cm(Matrix),
    BeginMarkedContent(Vec<u8>),
    EndMarkedContent,
    StrokingColorSpaceGrey(Decimal),
    ColorSpaceGrey(Decimal),
    LineWidth(Decimal),
    Move((Decimal, Decimal)),
    Line((Decimal, Decimal)),
    StrokePath,
    BeginMarkedContentWithProperties(Vec<u8>, Vec<(Vec<u8>, Decimal)>),
    BeginTextObject,
    EndTextObject,
    SetTextMatrix(Matrix),
    TextFont((Vec<u8>, Decimal)),
    ShowTextString(Vec<u8>),
    SetFlatnessTolerance(Decimal),
    EndPath,
    FillPathEvenOdd,
    SaveGraphicsState,
    RestoreGraphicsState,
    PaintXObject(Vec<u8>),
}

/// A content token as a mathematical value.
pub enum ContentTokenView {
    Cm(Matrix),
    BeginMarkedContent(Seq<u8>),
    EndMarkedContent,
    StrokingColorSpaceGrey(Decimal),
    ColorSpaceGrey(Decimal),
    LineWidth(Decimal),
    Move((Decimal, Decimal)),
    Line((Decimal, Decimal)),
    StrokePath,
    BeginMarkedContentWithProperties(Seq<u8>, Seq<(Seq<u8>, Decimal)>),
    BeginTextObject,
    EndTextObject,
    SetTextMatrix(Matrix),
    TextFont((Seq<u8>, Decimal)),
    ShowTextString(Seq<u8>),
    SetFlatnessTolerance(Decimal),
    EndPath,
    FillPathEvenOdd,
    SaveGraphicsState,
    RestoreGraphicsState,
    PaintXObject(Seq<u8>),
}

pub open spec fn properties_view(properties: Seq<(Vec<u8>, Decimal)>) -> Seq<(Seq<u8>, Decimal)> {
    properties.map_values(|p: (Vec<u8>, Decimal)| (p.0@, p.1))
}

impl View for ContentToken {
    type V = ContentTokenView;

    open spec fn view(&self) -> ContentTokenView {
        match *self {
            ContentToken::Cm(m) => ContentTokenView::Cm(m),
            ContentToken::BeginMarkedContent(tag) => ContentTokenView::BeginMarkedContent(tag@),
            ContentToken::EndMarkedContent => ContentTokenView::EndMarkedContent,
            ContentToken::StrokingColorSpaceGrey(v) => ContentTokenView::StrokingColorSpaceGrey(v),
            ContentToken::ColorSpaceGrey(v) => ContentTokenView::ColorSpaceGrey(v),
            ContentToken::LineWidth(v) => ContentTokenView::LineWidth(v),
            ContentToken::Move(p) => ContentTokenView::Move(p),
            ContentToken::Line(p) => ContentTokenView::Line(p),
            ContentToken::StrokePath => ContentTokenView::StrokePath,
            ContentToken::BeginMarkedContentWithProperties(tag, properties) =>
                ContentTokenView::BeginMarkedContentWithProperties(
                tag@,
                properties_view(properties@),
            ),
            ContentToken::BeginTextObject => ContentTokenView::BeginTextObject,
            ContentToken::EndTextObject => ContentTokenView::EndTextObject,
            ContentToken::SetTextMatrix(m) => ContentTokenView::SetTextMatrix(m),
            ContentToken::TextFont(font) => ContentTokenView::TextFont((font.0@, font.1)),
            ContentToken::ShowTextString(text) => ContentTokenView::ShowTextString(text@),
            ContentToken::SetFlatnessTolerance(v) => ContentTokenView::SetFlatnessTolerance(v),
            ContentToken::EndPath => ContentTokenView::EndPath,
            ContentToken::FillPathEvenOdd => ContentTokenView::FillPathEvenOdd,
            ContentToken::SaveGraphicsState => ContentTokenView::SaveGraphicsState,
            ContentToken::RestoreGraphicsState => ContentTokenView::RestoreGraphicsState,
            ContentToken::PaintXObject(name) => ContentTokenView::PaintXObject(name@),
        }
    }
}

/// What an operator takes from the stack.
#[derive(Debug, PartialEq)]
pub enum Operand {
    Number(Decimal),
    Name(Vec<u8>),
    String(Vec<u8>),
    Properties(Vec<(Vec<u8>, Decimal)>),
}

pub enum OperandView {
    Number(Decimal),
    Name(Seq<u8>),
    String(Seq<u8>),
    Properties(Seq<(Seq<u8>, Decimal)>),
}

impl View for Operand {
    type V = OperandView;

    open spec fn view(&self) -> OperandView {
        match *self {
            Operand::Number(v) => OperandView::Number(v),
            Operand::Name(name) => OperandView::Name(name@),
            Operand::String(bytes) => OperandView::String(bytes@),
            Operand::Properties(properties) => OperandView::Properties(
                properties_view(properties@),
            ),
        }
    }
}

pub open spec fn operand_kind(operand: OperandView) -> ValueKind {
    match operand {
        OperandView::Number(_) => ValueKind::Number,
        OperandView::Name(_) => ValueKind::Name,
        OperandView::String(_) => ValueKind::String,
        OperandView::Properties(_) => ValueKind::Dictionary,
    }
}

pub open spec fn operands_view(stack: Seq<Operand>) -> Seq<OperandView> {
    stack.map_values(|o: Operand| o@)
}

/// The operators that the lexer knows.
#[derive(Clone, Copy, Debug, PartialEq, Eq, Structural)]
pub enum Operator {
    /// `cm`
    Concat,
    /// `q`
    Save,
    /// `Q`
    Restore,
    /// `w`
    Width,
    /// `m`
    MoveTo,
    /// `l`
    LineTo,
    /// `S`
    Stroke,
    /// `n`
    EndPath,
    /// `f*`
    FillEvenOdd,
    /// `G`
    StrokingGray,
    /// `g`
    NonStrokingGray,
    /// `i`
    Flatness,
    /// `BMC`
    BeginMarked,
    /// `EMC`
    EndMarked,
    /// `BDC`
    BeginMarkedWithProperties,
    /// `BT`
    BeginText,
    /// `ET`
    EndText,
    /// `Tm`
    TextMatrix,
    /// `Tf`
    Font,
    /// `Tj`
    ShowText,
    /// `Do`
    XObject,
}

/// The operator that `word` spells.
pub open spec fn operator_of(word: Seq<u8>) -> Option<Operator> {
    if word.len() == 1 {
        if word[0] == 'q' as u8 {
            Some(Operator::Save)
        } else if word[0] == 'Q' as u8 {
            Some(Operator::Restore)
        } else if word[0] == 'w' as u8 {
            Some(Operator::Width)
        } else if word[0] == 'm' as u8 {
            Some(Operator::MoveTo)
        } else if word[0] == 'l' as u8 {
            Some(Operator::LineTo)
        } else if word[0] == 'S' as u8 {
            Some(Operator::Stroke)
        } else if word[0] == 'n' as u8 {
            Some(Operator::EndPath)
        } else if word[0] == 'G' as u8 {
            Some(Operator::StrokingGray)
        } else if word[0] == 'g' as u8 {
            Some(Operator::NonStrokingGray)
        } else if word[0] == 'i' as u8 {
            Some(Operator::Flatness)
        } else {
            None
        }
    } else if word.len() == 2 {
        if word[0] == 'c' as u8 && word[1] == 'm' as u8 {
            Some(Operator::Concat)
        } else if word[0] == 'f' as u8 && word[1] == '*' as u8 {
            Some(Operator::FillEvenOdd)
        } else if word[0] == 'B' as u8 && word[1] == 'T' as u8 {
            Some(Operator::BeginText)
        } else if word[0] == 'E' as u8 && word[1] == 'T' as u8 {
            Some(Operator::EndText)
        } else if word[0] == 'T' as u8 && word[1] == 'm' as u8 {
            Some(Operator::TextMatrix)
        } else if word[0] == 'T' as u8 && word[1] == 'f' as u8 {
            Some(Operator::Font)
        } else if word[0] == 'T' as u8 && word[1] == 'j' as u8 {
            Some(Operator::ShowText)
        } else if word[0] == 'D' as u8 && word[1] == 'o' as u8 {
            Some(Operator::XObject)
        } else {
            None
        }
    } else if word.len() == 3 {
        if word[0] == 'B' as u8 && word[1] == 'M' as u8 && word[2] == 'C' as u8 {
            Some(Operator::BeginMarked)
        } else if word[0] == 'E' as u8 && word[1] == 'M' as u8 && word[2] == 'C' as u8 {
            Some(Operator::EndMarked)
        } else if word[0] == 'B' as u8 && word[1] == 'D' as u8 && word[2] == 'C' as u8 {
            Some(Operator::BeginMarkedWithProperties)
        } else {
            None
        }
    } else {
        None
    }
}

pub fn read_operator(word: &[u8]) -> (r: Option<Operator>)
    ensures
        r == operator_of(word@),
{
    if word.len() == 1 {
        let c: u8 = word[0];
        if c == 'q' as u8 {
            Some(Operator::Save)
        } else if c == 'Q' as u8 {
            Some(Operator::Restore)
        } else if c == 'w' as u8 {
            Some(Operator::Width)
        } else if c == 'm' as u8 {
            Some(Operator::MoveTo)
        } else if c == 'l' as u8 {
            Some(Operator::LineTo)
        } else if c == 'S' as u8 {
            Some(Operator::Stroke)
        } else if c == 'n' as u8 {
            Some(Operator::EndPath)
        } else if c == 'G' as u8 {
            Some(Operator::StrokingGray)
        } else if c == 'g' as u8 {
            Some(Operator::NonStrokingGray)
        } else if c == 'i' as u8 {
            Some(Operator::Flatness)
        } else {
            None
        }
    } else if word.len() == 2 {
        let c: u8 = word[0];
        let d: u8 = word[1];
        if c == 'c' as u8 && d == 'm' as u8 {
            Some(Operator::Concat)
        } else if c == 'f' as u8 && d == '*' as u8 {
            Some(Operator::FillEvenOdd)
        } else if c == 'B' as u8 && d == 'T' as u8 {
            Some(Operator::BeginText)
        } else if c == 'E' as u8 && d == 'T' as u8 {
            Some(Operator::EndText)
        } else if c == 'T' as u8 && d == 'm' as u8 {
            Some(Operator::TextMatrix)
        } else if c == 'T' as u8 && d == 'f' as u8 {
            Some(Operator::Font)
        } else if c == 'T' as u8 && d == 'j' as u8 {
            Some(Operator::ShowText)
        } else if c == 'D' as u8 && d == 'o' as u8 {
            Some(Operator::XObject)
        } else {
            None
        }
    } else if word.len() == 3 {
        let c: u8 = word[0];
        let d: u8 = word[1];
        let e: u8 = word[2];
        if c == 'B' as u8 && d == 'M' as u8 && e == 'C' as u8 {
            Some(Operator::BeginMarked)
        } else if c == 'E' as u8 && d == 'M' as u8 && e == 'C' as u8 {
            Some(Operator::EndMarked)
        } else if c == 'B' as u8 && d == 'D' as u8 && e == 'C' as u8 {
            Some(Operator::BeginMarkedWithProperties)
        } else {
            None
        }
    } else {
        None
    }
}

/// The kinds of the operands of an operator, in the order in which they are
/// written.
pub open spec fn signature(op: Operator) -> Seq<ValueKind> {
    match op {
        Operator::Concat | Operator::TextMatrix => seq![
            ValueKind::Number,
            ValueKind::Number,
            ValueKind::Number,
            ValueKind::Number,
            ValueKind::Number,
            ValueKind::Number,
        ],
        Operator::Width | Operator::StrokingGray | Operator::NonStrokingGray
        | Operator::Flatness => seq![ValueKind::Number],
        Operator::MoveTo | Operator::LineTo => seq![ValueKind::Number, ValueKind::Number],
        Operator::BeginMarked | Operator::XObject => seq![ValueKind::Name],
        Operator::BeginMarkedWithProperties => seq![ValueKind::Name, ValueKind::Dictionary],
        Operator::Font => seq![ValueKind::Name, ValueKind::Number],
        Operator::ShowText => seq![ValueKind::String],
        _ => Seq::empty(),
    }
}

/// The first index from `from` on at which an operand is of another kind
/// than the signature asks for; the length of the signature where none is.
pub open spec fn mismatch_from(wanted: Seq<ValueKind>, given: Seq<OperandView>, from: int) -> int
    decreases wanted.len() - from,
{
    if 0 <= from < wanted.len() && from < given.len() && operand_kind(given[from])
        == wanted[from] {
        mismatch_from(wanted, given, from + 1)
    } else {
        from
    }
}

pub open spec fn number_of(operand: OperandView) -> Decimal {
    match operand {
        OperandView::Number(v) => v,
        _ => Decimal { negative: false, mantissa: 0, scale: 0 },
    }
}

pub open spec fn name_of(operand: OperandView) -> Seq<u8> {
    match operand {
        OperandView::Name(name) => name,
        OperandView::String(bytes) => bytes,
        _ => Seq::empty(),
    }
}

pub open spec fn properties_of(operand: OperandView) -> Seq<(Seq<u8>, Decimal)> {
    match operand {
        OperandView::Properties(properties) => properties,
        _ => Seq::empty(),
    }
}

pub open spec fn matrix_of(given: Seq<OperandView>) -> Matrix {
    Matrix {
        a: number_of(given[0]),
        b: number_of(given[1]),
        c: number_of(given[2]),
        d: number_of(given[3]),
        e: number_of(given[4]),
        f: number_of(given[5]),
    }
}

/// The token that an operator makes of its operands.
pub open spec fn token_of(op: Operator, given: Seq<OperandView>) -> ContentTokenView {
    match op {
        Operator::Concat => ContentTokenView::Cm(matrix_of(given)),
        Operator::Save => ContentTokenView::SaveGraphicsState,
        Operator::Restore => ContentTokenView::RestoreGraphicsState,
        Operator::Width => ContentTokenView::LineWidth(number_of(given[0])),
        Operator::MoveTo => ContentTokenView::Move((number_of(given[0]), number_of(given[1]))),
        Operator::LineTo => ContentTokenView::Line((number_of(given[0]), number_of(given[1]))),
        Operator::Stroke => ContentTokenView::StrokePath,
        Operator::EndPath => ContentTokenView::EndPath,
        Operator::FillEvenOdd => ContentTokenView::FillPathEvenOdd,
        Operator::StrokingGray => ContentTokenView::StrokingColorSpaceGrey(number_of(given[0])),
        Operator::NonStrokingGray => ContentTokenView::ColorSpaceGrey(number_of(given[0])),
        Operator::Flatness => ContentTokenView::SetFlatnessTolerance(number_of(given[0])),
        Operator::BeginMarked => ContentTokenView::BeginMarkedContent(name_of(given[0])),
        Operator::EndMarked => ContentTokenView::EndMarkedContent,
        Operator::BeginMarkedWithProperties => ContentTokenView::BeginMarkedContentWithProperties(
            name_of(given[0]),
            properties_of(given[1]),
        ),
        Operator::BeginText => ContentTokenView::BeginTextObject,
        Operator::EndText => ContentTokenView::EndTextObject,
        Operator::TextMatrix => ContentTokenView::SetTextMatrix(matrix_of(given)),
        Operator::Font => ContentTokenView::TextFont((name_of(given[0]), number_of(given[1]))),
        Operator::ShowText => ContentTokenView::ShowTextString(name_of(given[0])),
        Operator::XObject => ContentTokenView::PaintXObject(name_of(given[0])),
    }
}

/// What an operator does on a stack of operands: it takes as many operands
/// from the top as its signature is long, and they must be of the kinds of
/// the signature. The result is the token and the rest of the stack.
pub open spec fn operate(op: Operator, stack: Seq<OperandView>) -> Result<
    (ContentTokenView, Seq<OperandView>),
    PdfError,
> {
    let wanted = signature(op);
    if stack.len() < wanted.len() {
        Err(
            PdfError::TypeMismatch {
                place: Place::Operand,
                expected: wanted[0],
                got: ValueKind::Null,
            },
        )
    } else {
        let rest = stack.take(stack.len() - wanted.len());
        let given = stack.skip(stack.len() - wanted.len());
        let bad = mismatch_from(wanted, given, 0);
        if bad < wanted.len() {
            Err(
                PdfError::TypeMismatch {
                    place: Place::Operand,
                    expected: wanted[bad],
                    got: operand_kind(given[bad]),
                },
            )
        } else {
            Ok((token_of(op, given), rest))
        }
    }
}

impl Operand {
    pub fn kind(&self) -> (r: ValueKind)
        ensures
            r == operand_kind(self@),
    {
        match self {
            Operand::Number(_) => ValueKind::Number,
            Operand::Name(_) => ValueKind::Name,
            Operand::String(_) => ValueKind::String,
            Operand::Properties(_) => ValueKind::Dictionary,
        }
    }
}

pub fn signature_of(op: Operator) -> (r: Vec<ValueKind>)
    ensures
        r@ == signature(op),
{
    let mut r: Vec<ValueKind> = Vec::new();
    match op {
        Operator::Concat | Operator::TextMatrix => {
            r.push(ValueKind::Number);
            r.push(ValueKind::Number);
            r.push(ValueKind::Number);
            r.push(ValueKind::Number);
            r.push(ValueKind::Number);
            r.push(ValueKind::Number);
        },
        Operator::Width | Operator::StrokingGray | Operator::NonStrokingGray
        | Operator::Flatness => {
            r.push(ValueKind::Number);
        },
        Operator::MoveTo | Operator::LineTo => {
            r.push(ValueKind::Number);
            r.push(ValueKind::Number);
        },
        Operator::BeginMarked | Operator::XObject => {
            r.push(ValueKind::Name);
        },
        Operator::BeginMarkedWithProperties => {
            r.push(ValueKind::Name);
            r.push(ValueKind::Dictionary);
        },
        Operator::Font => {
            r.push(ValueKind::Name);
            r.push(ValueKind::Number);
        },
        Operator::ShowText => {
            r.push(ValueKind::String);
        },
        _ => {},
    }
    assert(r@ =~= signature(op));
    r
}

/// Takes the top operand as a number.
pub fn take_number(given: &mut Vec<Operand>) -> (r: Decimal)
    requires
        old(given)@.len() > 0,
    ensures
        final(given)@ == old(given)@.drop_last(),
        r == number_of(old(given)@.last()@),
{
    match given.pop() {
        Some(Operand::Number(v)) => v,
        _ => Decimal { negative: false, mantissa: 0, scale: 0 },
    }
}

/// Takes the top operand as a name or a string.
pub fn take_bytes(given: &mut Vec<Operand>) -> (r: Vec<u8>)
    requires
        old(given)@.len() > 0,
    ensures
        final(given)@ == old(given)@.drop_last(),
        r@ == name_of(old(given)@.last()@),
{
    match given.pop() {
        Some(Operand::Name(name)) => name,
        Some(Operand::String(bytes)) => bytes,
        _ => Vec::new(),
    }
}

/// Takes the top operand as a list of properties.
pub fn take_properties(given: &mut Vec<Operand>) -> (r: Vec<(Vec<u8>, Decimal)>)
    requires
        old(given)@.len() > 0,
    ensures
        final(given)@ == old(given)@.drop_last(),
        properties_view(r@) == properties_of(old(given)@.last()@),
{
    match given.pop() {
        Some(Operand::Properties(properties)) => properties,
        _ => {
            let r: Vec<(Vec<u8>, Decimal)> = Vec::new();
            assert(properties_view(r@) =~= Seq::<(Seq<u8>, Decimal)>::empty());
            r
        },
    }
}

pub fn take_matrix(given: &mut Vec<Operand>) -> (r: Matrix)
    requires
        old(given)@.len() == 6,
    ensures
        r == matrix_of(operands_view(old(given)@)),
{
    let f: Decimal = take_number(given);
    let e: Decimal = take_number(given);
    let d: Decimal = take_number(given);
    let c: Decimal = take_number(given);
    let b: Decimal = take_number(given);
    let a: Decimal = take_number(given);
    Matrix { a, b, c, d, e, f }
}

/// The token that an operator makes of operands that fit its signature.
pub fn make_token(op: Operator, given: Vec<Operand>) -> (r: ContentToken)
    requires
        given@.len() == signature(op).len(),
    ensures
        r@ == token_of(op, operands_view(given@)),
{
    let mut given = given;
    match op {
        Operator::Concat => ContentToken::Cm(take_matrix(&mut given)),
        Operator::Save => ContentToken::SaveGraphicsState,
        Operator::Restore => ContentToken::RestoreGraphicsState,
        Operator::Width => ContentToken::LineWidth(take_number(&mut given)),
        Operator::MoveTo => {
            let y: Decimal = take_number(&mut given);
            let x: Decimal = take_number(&mut given);
            ContentToken::Move((x, y))
        },
        Operator::LineTo => {
            let y: Decimal = take_number(&mut given);
            let x: Decimal = take_number(&mut given);
            ContentToken::Line((x, y))
        },
        Operator::Stroke => ContentToken::StrokePath,
        Operator::EndPath => ContentToken::EndPath,
        Operator::FillEvenOdd => ContentToken::FillPathEvenOdd,
        Operator::StrokingGray => ContentToken::StrokingColorSpaceGrey(take_number(&mut given)),
        Operator::NonStrokingGray => ContentToken::ColorSpaceGrey(take_number(&mut given)),
        Operator::Flatness => ContentToken::SetFlatnessTolerance(take_number(&mut given)),
        Operator::BeginMarked => ContentToken::BeginMarkedContent(take_bytes(&mut given)),
        Operator::EndMarked => ContentToken::EndMarkedContent,
        Operator::BeginMarkedWithProperties => {
            let properties: Vec<(Vec<u8>, Decimal)> = take_properties(&mut given);
            let tag: Vec<u8> = take_bytes(&mut given);
            ContentToken::BeginMarkedContentWithProperties(tag, properties)
        },
        Operator::BeginText => ContentToken::BeginTextObject,
        Operator::EndText => ContentToken::EndTextObject,
        Operator::TextMatrix => ContentToken::SetTextMatrix(take_matrix(&mut given)),
        Operator::Font => {
            let size: Decimal = take_number(&mut given);
            let font: Vec<u8> = take_bytes(&mut given);
            ContentToken::TextFont((font, size))
        },
        Operator::ShowText => ContentToken::ShowTextString(take_bytes(&mut given)),
        Operator::XObject => ContentToken::PaintXObject(take_bytes(&mut given)),
    }
}

/// Lets an operator take its operands from the top of the stack.
pub fn apply_operator(op: Operator, stack: &mut Vec<Operand>) -> (r: Result<ContentToken, PdfError>)
    ensures
        match r {
            Ok(token) => operate(op, operands_view(old(stack)@)) == Ok::<
                (ContentTokenView, Seq<OperandView>),
                PdfError,
            >((token@, operands_view(final(stack)@))),
            Err(e) => operate(op, operands_view(old(stack)@)) == Err::<
                (ContentTokenView, Seq<OperandView>),
                PdfError,
            >(e) && final(stack)@ == old(stack)@,
        },
{
    let wanted: Vec<ValueKind> = signature_of(op);
    let count: usize = wanted.len();
    let depth: usize = stack.len();
    if depth < count {
        return Err(
            PdfError::TypeMismatch {
                place: Place::Operand,
                expected: wanted[0],
                got: ValueKind::Null,
            },
        );
    }
    let base: usize = depth - count;
    let ghost given = operands_view(stack@).skip(base as int);
    let mut j: usize = 0;
    while j < count
        invariant
            j <= count,
            count == wanted@.len(),
            depth == stack@.len(),
            stack@ == old(stack)@,
            wanted@ == signature(op),
            base == depth - count,
            given == operands_view(stack@).skip(base as int),
            mismatch_from(wanted@, given, 0) == mismatch_from(wanted@, given, j as int),
        decreases count - j,
    {
        let kind: ValueKind = stack[base + j].kind();
        assert(given[j as int] == stack@[base + j]@);
        if kind != wanted[j] {
            assert(mismatch_from(wanted@, given, j as int) == j);
            return Err(
                PdfError::TypeMismatch { place: Place::Operand, expected: wanted[j], got: kind },
            );
        }
        j = j + 1;
    }
    let ghost before = stack@;
    let top: Vec<Operand> = stack.split_off(base);
    proof {
        assert(operands_view(top@) =~= given);
        assert(operands_view(stack@) =~= operands_view(before).take(base as int));
    }
    Ok(make_token(op, top))
}

/// `r` with `prefix` written before its properties.
pub open spec fn properties_prefixed(
    prefix: Seq<(Seq<u8>, Decimal)>,
    r: Result<(Seq<(Seq<u8>, Decimal)>, int), PdfError>,
) -> Result<(Seq<(Seq<u8>, Decimal)>, int), PdfError> {
    match r {
        Ok((properties, end)) => Ok((prefix + properties, end)),
        Err(e) => Err(e),
    }
}

/// The entries of an inline dictionary of properties from `pos` on, behind
/// its `<<`: names with a number each, up to `>>`; and the position behind
/// the `>>`.
pub open spec fn properties_at(s: Seq<u8>, pos: int) -> Result<
    (Seq<(Seq<u8>, Decimal)>, int),
    PdfError,
>
    decreases s.len() - pos,
{
    let at = skip_ws(s, pos);
    if pos < 0 || at < pos || at >= s.len() {
        Err(PdfError::UnexpectedEnd { offset: at as u64 })
    } else if s[at] == '>' as u8 && at + 1 < s.len() && s[at + 1] == '>' as u8 {
        Ok((Seq::empty(), at + 2))
    } else if s[at] == '/' as u8 {
        match number_at(s, skip_ws(s, word_end(s, at + 1))) {
            Ok((value, end)) => if at < end && end <= s.len() {
                properties_prefixed(seq![(word_at(s, at + 1), value)], properties_at(s, end))
            } else {
                Err(PdfError::StateViolation { cause: crate::error::Violation::Stalled })
            },
            Err(e) => Err(e),
        }
    } else {
        Err(PdfError::UnsupportedOperator { offset: at as u64 })
    }
}

pub fn read_properties(input: &[u8], pos: usize) -> (r: Result<
    (Vec<(Vec<u8>, Decimal)>, usize),
    PdfError,
>)
    requires
        pos <= input@.len(),
    ensures
        match r {
            Ok((properties, end)) => properties_at(input@, pos as int) == Ok::<
                (Seq<(Seq<u8>, Decimal)>, int),
                PdfError,
            >((properties_view(properties@), end as int)) && pos < end <= input@.len(),
            Err(e) => properties_at(input@, pos as int) == Err::<
                (Seq<(Seq<u8>, Decimal)>, int),
                PdfError,
            >(e),
        },
{
    let len: usize = input.len();
    let mut out: Vec<(Vec<u8>, Decimal)> = Vec::new();
    let mut i: usize = pos;
    proof {
        assert(properties_view(out@) =~= Seq::<(Seq<u8>, Decimal)>::empty());
        match properties_at(input@, pos as int) {
            Ok((found, end)) => {
                assert(Seq::<(Seq<u8>, Decimal)>::empty() + found =~= found);
            },
            Err(e) => {},
        }
    }
    loop
        invariant
            pos <= i <= len,
            len == input@.len(),
            properties_prefixed(properties_view(out@), properties_at(input@, i as int))
                == properties_at(input@, pos as int),
        decreases len - i,
    {
        let at: usize = scan_run(input, i, ByteClass::Whitespace);
        if at >= len {
            return Err(PdfError::UnexpectedEnd { offset: at as u64 });
        }
        let c: u8 = input[at];
        if c == '>' as u8 && at + 1 < len && input[at + 1] == '>' as u8 {
            proof {
                assert(properties_view(out@) + Seq::<(Seq<u8>, Decimal)>::empty()
                    =~= properties_view(out@));
            }
            return Ok((out, at + 2));
        }
        if c != '/' as u8 {
            return Err(PdfError::UnsupportedOperator { offset: at as u64 });
        }
        let key_end: usize = scan_run(input, at + 1, ByteClass::Regular);
        let value_at: usize = scan_run(input, key_end, ByteClass::Whitespace);
        match read_number_at(input, value_at) {
            Ok((value, end)) => {
                let ghost before = properties_view(out@);
                let key: Vec<u8> = copy_range(input, at + 1, key_end);
                proof {
                    match properties_at(input@, end as int) {
                        Ok((rest, stop)) => {
                            assert(before + (seq![(key@, value)] + rest) =~= before.push(
                                (key@, value),
                            ) + rest);
                        },
                        Err(e) => {},
                    }
                }
                out.push((key, value));
                assert(properties_view(out@) =~= before.push((key@, value)));
                i = end;
            },
            Err(e) => {
                return Err(e);
            },
        }
    }
}

/// Whether a number may start with `b` in a content stream.
pub open spec fn starts_operand_number(b: u8) -> bool {
    is_digit(b) || b == '-' as u8 || b == '+' as u8 || b == '.' as u8
}

/// What stands at a position of a content stream.
pub enum Item {
    Operand(OperandView),
    Operator(Operator),
}

/// What stands at `at`, a position that holds no white space, and where it
/// ends: a name behind `/`, a literal string, a dictionary of properties
/// behind `<<`, a number, or an operator.
pub open spec fn item_at(s: Seq<u8>, at: int) -> Result<(Item, int), PdfError> {
    if s[at] == '/' as u8 {
        Ok((Item::Operand(OperandView::Name(word_at(s, at + 1))), word_end(s, at + 1)))
    } else if s[at] == '(' as u8 {
        match literal_at(s, at) {
            Ok((bytes, end)) => Ok((Item::Operand(OperandView::String(bytes)), end)),
            Err(e) => Err(e),
        }
    } else if s[at] == '<' as u8 && at + 1 < s.len() && s[at + 1] == '<' as u8 {
        match properties_at(s, at + 2) {
            Ok((properties, end)) => Ok((Item::Operand(OperandView::Properties(properties)), end)),
            Err(e) => Err(e),
        }
    } else if starts_operand_number(s[at]) {
        match number_at(s, at) {
            Ok((value, end)) => Ok((Item::Operand(OperandView::Number(value)), end)),
            Err(e) => Err(e),
        }
    } else {
        match operator_of(word_at(s, at)) {
            Some(op) => Ok((Item::Operator(op), word_end(s, at))),
            None => Err(PdfError::UnsupportedOperator { offset: at as u64 }),
        }
    }
}

/// `r` with `prefix` written before its tokens.
pub open spec fn content_prefixed(
    prefix: Seq<ContentTokenView>,
    r: Result<Seq<ContentTokenView>, PdfError>,
) -> Result<Seq<ContentTokenView>, PdfError> {
    match r {
        Ok(tokens) => Ok(prefix + tokens),
        Err(e) => Err(e),
    }
}

/// The tokens of a content stream from `pos` on, with `stack` holding the
/// operands that were read before. Operands go on the stack; an operator
/// takes its operands from the top of the stack and becomes a token. At the
/// end of the stream no operand may be left.
pub open spec fn content_tokens(s: Seq<u8>, pos: int, stack: Seq<OperandView>) -> Result<
    Seq<ContentTokenView>,
    PdfError,
>
    decreases s.len() - pos,
{
    let at = skip_ws(s, pos);
    if pos < 0 || at < pos || at >= s.len() {
        if stack.len() == 0 {
            Ok(Seq::empty())
        } else {
            Err(PdfError::UnexpectedEnd { offset: at as u64 })
        }
    } else {
        match item_at(s, at) {
            Ok((item, end)) => if at < end && end <= s.len() {
                match item {
                    Item::Operand(operand) => content_tokens(s, end, stack.push(operand)),
                    Item::Operator(op) => match operate(op, stack) {
                        Ok((token, rest)) => content_prefixed(
                            seq![token],
                            content_tokens(s, end, rest),
                        ),
                        Err(e) => Err(e),
                    },
                }
            } else {
                Err(PdfError::StateViolation { cause: crate::error::Violation::Stalled })
            },
            Err(e) => Err(e),
        }
    }
}

pub open spec fn content_result(r: Result<Vec<ContentToken>, PdfError>) -> Result<
    Seq<ContentTokenView>,
    PdfError,
> {
    match r {
        Ok(tokens) => Ok(tokens@.map_values(|t: ContentToken| t@)),
        Err(e) => Err(e),
    }
}

/// What stands at `at` in a content stream.
pub enum ReadItem {
    Operand(Operand),
    Operator(Operator),
}

impl View for ReadItem {
    type V = Item;

    open spec fn view(&self) -> Item {
        match *self {
            ReadItem::Operand(operand) => Item::Operand(operand@),
            ReadItem::Operator(op) => Item::Operator(op),
        }
    }
}

pub fn read_item(input: &[u8], at: usize) -> (r: Result<(ReadItem, usize), PdfError>)
    requires
        at < input@.len(),
    ensures
        match r {
            Ok((item, end)) => item_at(input@, at as int) == Ok::<(Item, int), PdfError>(
                (item@, end as int),
            ) && at < end <= input@.len(),
            Err(e) => item_at(input@, at as int) == Err::<(Item, int), PdfError>(e),
        },
{
    let len: usize = input.len();
    let c: u8 = input[at];
    if c == '/' as u8 {
        let end: usize = scan_run(input, at + 1, ByteClass::Regular);
        let name: Vec<u8> = copy_range(input, at + 1, end);
        return Ok((ReadItem::Operand(Operand::Name(name)), end));
    }
    if c == '(' as u8 {
        return match read_literal(input, at) {
            Ok((bytes, end)) => Ok((ReadItem::Operand(Operand::String(bytes)), end)),
            Err(e) => Err(e),
        };
    }
    if c == '<' as u8 && at + 1 < len && input[at + 1] == '<' as u8 {
        return match read_properties(input, at + 2) {
            Ok((properties, end)) => Ok((ReadItem::Operand(Operand::Properties(properties)), end)),
            Err(e) => Err(e),
        };
    }
    if is_digit_byte(c) || c == '-' as u8 || c == '+' as u8 || c == '.' as u8 {
        return match read_number_at(input, at) {
            Ok((value, end)) => {
                proof {
                    lemma_run_end(input@, at as int, ByteClass::Regular);
                    assert(crate::scan::in_class(ByteClass::Regular, input@[at as int]));
                }
                Ok((ReadItem::Operand(Operand::Number(value)), end))
            },
            Err(e) => Err(e),
        };
    }
    let (word, end) = read_word(input, at);
    match read_operator(word) {
        Some(op) => Ok((ReadItem::Operator(op), end)),
        None => Err(PdfError::UnsupportedOperator { offset: at as u64 }),
    }
}

/// The tokens of the content stream `source`.
pub fn parse(source: &[u8]) -> (r: Result<Vec<ContentToken>, PdfError>)
    ensures
        content_result(r) == content_tokens(source@, 0, Seq::empty()),
{
    let len: usize = source.len();
    let mut tokens: Vec<ContentToken> = Vec::new();
    let mut stack: Vec<Operand> = Vec::new();
    let mut i: usize = 0;
    let ghost whole = content_tokens(source@, 0, Seq::empty());
    proof {
        assert(operands_view(stack@) =~= Seq::<OperandView>::empty());
        assert(tokens@.map_values(|t: ContentToken| t@) =~= Seq::<ContentTokenView>::empty());
        match whole {
            Ok(found) => {
                assert(Seq::<ContentTokenView>::empty() + found =~= found);
            },
            Err(e) => {},
        }
    }
    loop
        invariant
            i <= len,
            len == source@.len(),
            whole == content_tokens(source@, 0, Seq::empty()),
            content_prefixed(
                tokens@.map_values(|t: ContentToken| t@),
                content_tokens(source@, i as int, operands_view(stack@)),
            ) == whole,
        decreases len - i,
    {
        let ghost done = tokens@.map_values(|t: ContentToken| t@);
        let ghost held = operands_view(stack@);
        let at: usize = scan_run(source, i, ByteClass::Whitespace);
        if at >= len {
            if stack.len() == 0 {
                proof {
                    assert(done + Seq::<ContentTokenView>::empty() =~= done);
                }
                return Ok(tokens);
            }
            return Err(PdfError::UnexpectedEnd { offset: at as u64 });
        }
        match read_item(source, at) {
            Ok((item, end)) => {
                match item {
                    ReadItem::Operand(operand) => {
                        stack.push(operand);
                        assert(operands_view(stack@) =~= held.push(operand@));
                    },
                    ReadItem::Operator(op) => {
                        match apply_operator(op, &mut stack) {
                            Ok(token) => {
                                proof {
                                    match content_tokens(
                                        source@,
                                        end as int,
                                        operands_view(stack@),
                                    ) {
                                        Ok(rest) => {
                                            assert(done + (seq![token@] + rest) =~= done.push(
                                                token@,
                                            ) + rest);
                                        },
                                        Err(e) => {},
                                    }
                                }
                                tokens.push(token);
                                assert(tokens@.map_values(|t: ContentToken| t@) =~= done.push(
                                    token@,
                                ));
                            },
                            Err(e) => {
                                return Err(e);
                            },
                        }
                    },
                }
                i = end;
            },
            Err(e) => {
                return Err(e);
            },
        }
    }
}

/// A dictionary of properties that is read ends behind where it starts,
/// inside the input.
pub proof fn lemma_properties_advance(s: Seq<u8>, pos: int)
    requires
        0 <= pos <= s.len(),
    ensures
        properties_at(s, pos) matches Ok((properties, end)) ==> pos < end <= s.len(),
    decreases s.len() - pos,
{
    let at = skip_ws(s, pos);
    lemma_run_end(s, pos, ByteClass::Whitespace);
    if at < s.len() && s[at] == '/' as u8 {
        lemma_run_end(s, at + 1, ByteClass::Regular);
        lemma_run_end(s, word_end(s, at + 1), ByteClass::Whitespace);
        let value_at = skip_ws(s, word_end(s, at + 1));
        lemma_run_end(s, value_at, ByteClass::Regular);
        match number_at(s, value_at) {
            Ok((value, end)) => {
                lemma_properties_advance(s, end);
            },
            Err(e) => {},
        }
    }
}

/// Whatever stands at a position of a content stream ends behind it, inside
/// the input: the lexer never stays where it is.
pub proof fn lemma_item_advances(s: Seq<u8>, at: int)
    requires
        0 <= at < s.len(),
        !crate::scan::is_whitespace(s[at]),
    ensures
        item_at(s, at) matches Ok((item, end)) ==> at < end <= s.len(),
{
    lemma_run_end(s, at, ByteClass::Regular);
    lemma_run_end(s, at + 1, ByteClass::Regular);
    crate::lexer::lemma_literal_advances(s, at + 1, 0);
    if s[at] == '<' as u8 && at + 1 < s.len() && s[at + 1] == '<' as u8 {
        lemma_properties_advance(s, at + 2);
    }
    if starts_operand_number(s[at]) {
        assert(crate::scan::in_class(ByteClass::Regular, s[at]));
    }
    if operator_of(word_at(s, at)) is Some {
        assert(word_at(s, at).len() > 0);
    }
}

proof fn lemma_properties_never_stalled(s: Seq<u8>, pos: int)
    requires
        0 <= pos <= s.len(),
    ensures
        properties_at(s, pos) matches Err(e) ==> !crate::lexer::is_stalled(e),
    decreases s.len() - pos,
{
    let at = skip_ws(s, pos);
    lemma_run_end(s, pos, ByteClass::Whitespace);
    if at < s.len() && s[at] == '/' as u8 {
        lemma_run_end(s, at + 1, ByteClass::Regular);
        lemma_run_end(s, word_end(s, at + 1), ByteClass::Whitespace);
        let value_at = skip_ws(s, word_end(s, at + 1));
        lemma_run_end(s, value_at, ByteClass::Regular);
        match number_at(s, value_at) {
            Ok((value, end)) => {
                lemma_properties_never_stalled(s, end);
            },
            Err(e) => {},
        }
    }
}

/// The lexer of content streams always moves forward: it never fails for
/// want of progress.
pub proof fn lemma_content_never_stalled(s: Seq<u8>, pos: int, stack: Seq<OperandView>)
    requires
        0 <= pos <= s.len(),
    ensures
        content_tokens(s, pos, stack) matches Err(e) ==> !crate::lexer::is_stalled(e),
    decreases s.len() - pos,
{
    let at = skip_ws(s, pos);
    lemma_run_end(s, pos, ByteClass::Whitespace);
    if at < s.len() {
        lemma_item_advances(s, at);
        crate::lexer::lemma_literal_never_stalled(s, at + 1, 0);
        if at + 2 <= s.len() {
            lemma_properties_never_stalled(s, at + 2);
        }
        match item_at(s, at) {
            Ok((item, end)) => {
                match item {
                    Item::Operand(operand) => {
                        lemma_content_never_stalled(s, end, stack.push(operand));
                    },
                    Item::Operator(op) => {
                        match operate(op, stack) {
                            Ok((token, rest)) => {
                                lemma_content_never_stalled(s, end, rest);
                            },
                            Err(e) => {},
                        }
                    },
                }
            },
            Err(e) => {},
        }
    }
}

} // verus!
