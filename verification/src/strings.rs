//! Literal strings `( .. )` with balanced parentheses and escape sequences,
//! and hexadecimal strings `< .. >`.
use crate::error::PdfError;
use crate::scan::{is_digit, is_hex_digit, is_octal_digit, is_octal_digit_byte, CR, FF, HT, LF};
use vstd::prelude::*;

verus! {

pub const BACKSPACE: u8 = 0x08;

pub open spec fn octal_digit_at(s: Seq<u8>, pos: int) -> bool {
    0 <= pos < s.len() && is_octal_digit(s[pos])
}

/// Where the octal escape that starts at `pos` ends: behind at most three
/// octal digits.
pub open spec fn octal_end(s: Seq<u8>, pos: int) -> int {
    if !octal_digit_at(s, pos + 1) {
        pos + 1
    } else if !octal_digit_at(s, pos + 2) {
        pos + 2
    } else {
        pos + 3
    }
}

pub open spec fn octal_value(digits: Seq<u8>) -> nat
    decreases digits.len(),
{
    if digits.len() == 0 {
        0
    } else {
        octal_value(digits.drop_last()) * 8 + (digits.last() - '0' as u8) as nat
    }
}

/// The byte that the escape sequence behind a backslash denotes, and where
/// the sequence ends. `pos` is the position behind the backslash.
pub open spec fn escape_at(s: Seq<u8>, pos: int) -> Result<(u8, int), PdfError> {
    if !(0 <= pos < s.len()) {
        Err(PdfError::UnexpectedEnd { offset: pos as u64 })
    } else if s[pos] == 'n' as u8 {
        Ok((LF, pos + 1))
    } else if s[pos] == 'r' as u8 {
        Ok((CR, pos + 1))
    } else if s[pos] == 't' as u8 {
        Ok((HT, pos + 1))
    } else if s[pos] == 'b' as u8 {
        Ok((BACKSPACE, pos + 1))
    } else if s[pos] == 'f' as u8 {
        Ok((FF, pos + 1))
    } else if s[pos] == '\\' as u8 || s[pos] == '(' as u8 || s[pos] == ')' as u8 {
        Ok((s[pos], pos + 1))
    } else if is_octal_digit(s[pos]) && octal_value(s.subrange(pos, octal_end(s, pos))) <= 255 {
        Ok((octal_value(s.subrange(pos, octal_end(s, pos))) as u8, octal_end(s, pos)))
    } else {
        Err(PdfError::BadEscape { offset: pos as u64, byte: s[pos] })
    }
}

/// A decoded string and the position behind its closing parenthesis.
pub type Decoded = Result<(Seq<u8>, int), PdfError>;

/// `r` with `prefix` written before its bytes.
pub open spec fn prefixed(prefix: Seq<u8>, r: Decoded) -> Decoded {
    match r {
        Ok((bytes, end)) => Ok((prefix + bytes, end)),
        Err(e) => Err(e),
    }
}

/// The bytes that a literal string denotes from `pos` on, `depth`
/// parentheses deep inside it, and the position behind the parenthesis that
/// closes it. Parentheses inside the string belong to it where they balance;
/// a backslash starts an escape sequence.
pub open spec fn literal_body(s: Seq<u8>, pos: int, depth: nat) -> Decoded
    decreases s.len() - pos,
{
    if !(0 <= pos < s.len()) {
        Err(PdfError::UnexpectedEnd { offset: pos as u64 })
    } else if s[pos] == '(' as u8 {
        prefixed(seq![s[pos]], literal_body(s, pos + 1, depth + 1))
    } else if s[pos] == ')' as u8 {
        if depth == 0 {
            Ok((Seq::empty(), pos + 1))
        } else {
            prefixed(seq![s[pos]], literal_body(s, pos + 1, (depth - 1) as nat))
        }
    } else if s[pos] == '\\' as u8 {
        match escape_at(s, pos + 1) {
            Ok((byte, next)) => if next > pos {
                prefixed(seq![byte], literal_body(s, next, depth))
            } else {
                Err(PdfError::StateViolation { cause: crate::error::Violation::Stalled })
            },
            Err(e) => Err(e),
        }
    } else {
        prefixed(seq![s[pos]], literal_body(s, pos + 1, depth))
    }
}

/// The literal string whose opening parenthesis stands at `pos`.
pub open spec fn literal_at(s: Seq<u8>, pos: int) -> Decoded {
    literal_body(s, pos + 1, 0)
}

pub proof fn lemma_prefixed_twice(a: Seq<u8>, b: Seq<u8>, r: Decoded)
    ensures
        prefixed(a, prefixed(b, r)) == prefixed(a + b, r),
{
    match r {
        Ok((bytes, end)) => {
            assert(a + (b + bytes) =~= (a + b) + bytes);
        },
        Err(e) => {},
    }
}

/// Decodes the escape sequence behind the backslash at `pos - 1`.
pub fn read_escape(input: &[u8], pos: usize) -> (r: Result<(u8, usize), PdfError>)
    ensures
        match r {
            Ok((byte, next)) => escape_at(input@, pos as int) == Ok::<(u8, int), PdfError>(
                (byte, next as int),
            ) && pos < next <= input@.len(),
            Err(e) => escape_at(input@, pos as int) == Err::<(u8, int), PdfError>(e),
        },
{
    if pos >= input.len() {
        return Err(PdfError::UnexpectedEnd { offset: pos as u64 });
    }
    let c: u8 = input[pos];
    if c == 'n' as u8 {
        Ok((LF, pos + 1))
    } else if c == 'r' as u8 {
        Ok((CR, pos + 1))
    } else if c == 't' as u8 {
        Ok((HT, pos + 1))
    } else if c == 'b' as u8 {
        Ok((BACKSPACE, pos + 1))
    } else if c == 'f' as u8 {
        Ok((FF, pos + 1))
    } else if c == '\\' as u8 || c == '(' as u8 || c == ')' as u8 {
        Ok((c, pos + 1))
    } else if is_octal_digit_byte(c) {
        let mut value: u16 = (c - '0' as u8) as u16;
        let mut next: usize = pos + 1;
        let ghost first = input@.subrange(pos as int, pos + 1);
        proof {
            assert(first.drop_last() =~= Seq::<u8>::empty());
            assert(octal_value(first.drop_last()) == 0);
            assert(first.last() == c);
            assert(octal_value(first) == value);
        }
        if next < input.len() && is_octal_digit_byte(input[next]) {
            let ghost second = input@.subrange(pos as int, pos + 2);
            value = value * 8 + (input[next] - '0' as u8) as u16;
            proof {
                assert(second.drop_last() =~= first);
                assert(second.last() == input@[pos + 1]);
                assert(octal_value(second) == value);
            }
            next = next + 1;
            if next < input.len() && is_octal_digit_byte(input[next]) {
                let ghost third = input@.subrange(pos as int, pos + 3);
                value = value * 8 + (input[next] - '0' as u8) as u16;
                proof {
                    assert(third.drop_last() =~= second);
                    assert(third.last() == input@[pos + 2]);
                    assert(octal_value(third) == value);
                }
                next = next + 1;
            }
        }
        assert(next == octal_end(input@, pos as int));
        assert(value == octal_value(input@.subrange(pos as int, next as int)));
        if value <= 255 {
            Ok((value as u8, next))
        } else {
            Err(PdfError::BadEscape { offset: pos as u64, byte: c })
        }
    } else {
        Err(PdfError::BadEscape { offset: pos as u64, byte: c })
    }
}

/// Decodes the body of a literal string from `start` on: up to the
/// parenthesis that closes it.
pub fn read_literal_body(input: &[u8], start: usize) -> (r: Result<(Vec<u8>, usize), PdfError>)
    requires
        start <= input@.len(),
    ensures
        match r {
            Ok((bytes, end)) => literal_body(input@, start as int, 0) == Ok::<
                (Seq<u8>, int),
                PdfError,
            >((bytes@, end as int)) && start < end <= input@.len(),
            Err(e) => literal_body(input@, start as int, 0) == Err::<(Seq<u8>, int), PdfError>(e),
        },
{
    let mut out: Vec<u8> = Vec::new();
    let mut depth: usize = 0;
    let len: usize = input.len();
    let mut i: usize = start;
    assert(prefixed(out@, literal_body(input@, i as int, depth as nat)) == literal_body(
        input@,
        start as int,
        0,
    )) by {
        match literal_body(input@, i as int, 0) {
            Ok((bytes, end)) => {
                assert(Seq::<u8>::empty() + bytes =~= bytes);
            },
            Err(e) => {},
        }
    }
    while i < input.len()
        invariant
            start <= i <= input@.len(),
            depth <= i - start,
            prefixed(out@, literal_body(input@, i as int, depth as nat)) == literal_body(
                input@,
                start as int,
                0,
            ),
        decreases input@.len() - i,
    {
        let c: u8 = input[i];
        let ghost before = out@;
        if c == '(' as u8 {
            out.push(c);
            depth = depth + 1;
            proof {
                lemma_prefixed_twice(
                    before,
                    seq![c],
                    literal_body(input@, i + 1, depth as nat),
                );
                assert(before + seq![c] =~= out@);
            }
            i = i + 1;
        } else if c == ')' as u8 {
            if depth == 0 {
                assert(before + Seq::<u8>::empty() =~= before);
                return Ok((out, i + 1));
            }
            out.push(c);
            depth = depth - 1;
            proof {
                lemma_prefixed_twice(
                    before,
                    seq![c],
                    literal_body(input@, i + 1, depth as nat),
                );
                assert(before + seq![c] =~= out@);
            }
            i = i + 1;
        } else if c == '\\' as u8 {
            match read_escape(input, i + 1) {
                Ok((byte, next)) => {
                    out.push(byte);
                    proof {
                        lemma_prefixed_twice(
                            before,
                            seq![byte],
                            literal_body(input@, next as int, depth as nat),
                        );
                        assert(before + seq![byte] =~= out@);
                    }
                    i = next;
                },
                Err(e) => {
                    return Err(e);
                },
            }
        } else {
            out.push(c);
            proof {
                lemma_prefixed_twice(
                    before,
                    seq![c],
                    literal_body(input@, i + 1, depth as nat),
                );
                assert(before + seq![c] =~= out@);
            }
            i = i + 1;
        }
    }
    Err(PdfError::UnexpectedEnd { offset: i as u64 })
}

/// Decodes the literal string whose opening parenthesis stands at `start`.
pub fn read_literal(input: &[u8], start: usize) -> (r: Result<(Vec<u8>, usize), PdfError>)
    requires
        start < input@.len(),
    ensures
        match r {
            Ok((bytes, end)) => literal_at(input@, start as int) == Ok::<(Seq<u8>, int), PdfError>(
                (bytes@, end as int),
            ) && start < end <= input@.len(),
            Err(e) => literal_at(input@, start as int) == Err::<(Seq<u8>, int), PdfError>(e),
        },
{
    let len: usize = input.len();
    read_literal_body(input, start + 1)
}

/// How `bytes` is written between the parentheses of a literal string:
/// each parenthesis and each backslash behind a backslash, every other
/// byte as it is.
pub open spec fn literal_escaped(bytes: Seq<u8>) -> Seq<u8>
    decreases bytes.len(),
{
    if bytes.len() == 0 {
        Seq::empty()
    } else if bytes[0] == '(' as u8 || bytes[0] == ')' as u8 || bytes[0] == '\\' as u8 {
        seq!['\\' as u8, bytes[0]] + literal_escaped(bytes.skip(1))
    } else {
        seq![bytes[0]] + literal_escaped(bytes.skip(1))
    }
}

/// How `bytes` is written as a literal string.
pub open spec fn literal_encoding(bytes: Seq<u8>) -> Seq<u8> {
    seq!['(' as u8] + literal_escaped(bytes) + seq![')' as u8]
}

proof fn lemma_escaped_decodes(s: Seq<u8>, pos: int, bytes: Seq<u8>)
    requires
        0 <= pos,
        pos + literal_escaped(bytes).len() < s.len(),
        s.subrange(pos, pos + literal_escaped(bytes).len()) == literal_escaped(bytes),
        s[pos + literal_escaped(bytes).len()] == ')' as u8,
    ensures
        literal_body(s, pos, 0) == Ok::<(Seq<u8>, int), PdfError>(
            (bytes, pos + literal_escaped(bytes).len() + 1),
        ),
    decreases bytes.len(),
{
    let esc = literal_escaped(bytes);
    if bytes.len() == 0 {
        assert(bytes =~= Seq::<u8>::empty());
    } else {
        let rest = bytes.skip(1);
        let special = bytes[0] == '(' as u8 || bytes[0] == ')' as u8 || bytes[0] == '\\' as u8;
        let step: int = if special {
            2
        } else {
            1
        };
        assert(esc.len() == step + literal_escaped(rest).len());
        assert(s.subrange(pos + step, pos + step + literal_escaped(rest).len())
            =~= literal_escaped(rest)) by {
            assert(esc.skip(step) =~= literal_escaped(rest));
            assert forall|i: int| 0 <= i < literal_escaped(rest).len() implies s[pos + step + i]
                == literal_escaped(rest)[i] by {
                assert(s.subrange(pos, pos + esc.len())[step + i] == s[pos + step + i]);
                assert(esc[step + i] == esc.skip(step)[i]);
            }
        }
        lemma_escaped_decodes(s, pos + step, rest);
        let tail = literal_body(s, pos + step, 0);
        assert(tail == Ok::<(Seq<u8>, int), PdfError>((rest, pos + esc.len() + 1)));
        assert(prefixed(seq![bytes[0]], tail) == Ok::<(Seq<u8>, int), PdfError>(
            (seq![bytes[0]] + rest, pos + esc.len() + 1),
        ));
        assert(seq![bytes[0]] + rest =~= bytes);
        assert(s[pos] == esc[0]) by {
            assert(s.subrange(pos, pos + esc.len())[0] == s[pos]);
        }
        if special {
            assert(s[pos + 1] == esc[1]) by {
                assert(s.subrange(pos, pos + esc.len())[1] == s[pos + 1]);
            }
            assert(esc[0] == '\\' as u8);
            assert(esc[1] == bytes[0]);
            assert(escape_at(s, pos + 1) == Ok::<(u8, int), PdfError>((bytes[0], pos + 2)));
        } else {
            assert(esc[0] == bytes[0]);
        }
        assert(seq![bytes[0]] + rest =~= bytes);
    }
}

/// A byte string that is written as a literal string and read back is the
/// byte string again, whatever bytes it holds and whatever follows it.
pub proof fn lemma_literal_round_trip(bytes: Seq<u8>, tail: Seq<u8>)
    ensures
        literal_at(literal_encoding(bytes) + tail, 0) == Ok::<(Seq<u8>, int), PdfError>(
            (bytes, literal_encoding(bytes).len() as int),
        ),
{
    let s = literal_encoding(bytes) + tail;
    let esc = literal_escaped(bytes);
    assert(s.subrange(1, 1 + esc.len() as int) =~= esc);
    assert(s[1 + esc.len() as int] == ')' as u8);
    lemma_escaped_decodes(s, 1, bytes);
}

pub open spec fn hex_digit_value(b: u8) -> nat {
    if is_digit(b) {
        (b - '0' as u8) as nat
    } else if 'a' as u8 <= b <= 'f' as u8 {
        (b - 'a' as u8 + 10) as nat
    } else if 'A' as u8 <= b <= 'F' as u8 {
        (b - 'A' as u8 + 10) as nat
    } else {
        0
    }
}

pub open spec fn all_hex_digits(s: Seq<u8>) -> bool {
    forall|i: int| 0 <= i < s.len() ==> is_hex_digit(#[trigger] s[i])
}

/// The digit at `i`, and zero behind the last digit.
pub open spec fn hex_digit_or_zero(digits: Seq<u8>, i: int) -> nat {
    if 0 <= i < digits.len() {
        hex_digit_value(digits[i])
    } else {
        0
    }
}

/// The bytes that hexadecimal digits denote, two digits to a byte; a last
/// digit that stands alone is the high half of a byte whose low half is zero.
pub open spec fn hex_bytes(digits: Seq<u8>) -> Seq<u8> {
    Seq::new(
        ((digits.len() + 1) / 2) as nat,
        |i: int| (16 * hex_digit_or_zero(digits, 2 * i) + hex_digit_or_zero(digits, 2 * i + 1)) as u8,
    )
}

/// The index of the first byte of `s` that is no hexadecimal digit.
pub open spec fn first_non_hex(s: Seq<u8>) -> int {
    crate::scan::run_end(s, 0, crate::scan::ByteClass::HexDigit)
}

pub fn hex_value(b: u8) -> (r: u8)
    requires
        is_hex_digit(b),
    ensures
        r == hex_digit_value(b),
        r < 16,
{
    if b >= 'a' as u8 {
        b - 'a' as u8 + 10
    } else if b >= 'A' as u8 {
        b - 'A' as u8 + 10
    } else {
        b - '0' as u8
    }
}

/// Decodes hexadecimal digits into bytes; `Err` holds the index of the first
/// byte that is no hexadecimal digit.
pub fn decode_hex(digits: &[u8]) -> (r: Result<Vec<u8>, usize>)
    ensures
        match r {
            Ok(bytes) => all_hex_digits(digits@) && bytes@ == hex_bytes(digits@),
            Err(i) => !all_hex_digits(digits@) && i == first_non_hex(digits@),
        },
{
    let stop: usize = crate::scan::scan_run(digits, 0, crate::scan::ByteClass::HexDigit);
    proof {
        crate::scan::lemma_run_end(digits@, 0, crate::scan::ByteClass::HexDigit);
    }
    if stop < digits.len() {
        return Err(stop);
    }
    let mut out: Vec<u8> = Vec::new();
    let count: usize = digits.len() / 2 + digits.len() % 2;
    let mut k: usize = 0;
    while k < count
        invariant
            k <= count,
            count == (digits@.len() + 1) / 2,
            digits@.len() <= usize::MAX,
            all_hex_digits(digits@),
            out@.len() == k,
            forall|j: int| 0 <= j < k ==> out@[j] == hex_bytes(digits@)[j],
        decreases count - k,
    {
        let high: u8 = hex_value(digits[2 * k]);
        let low: u8 = if 2 * k + 1 < digits.len() {
            hex_value(digits[2 * k + 1])
        } else {
            0
        };
        out.push(high * 16 + low);
        k = k + 1;
    }
    assert(out@ =~= hex_bytes(digits@));
    Ok(out)
}

/// A hexadecimal string with an odd number of digits denotes the bytes that
/// it denotes with a `0` written behind it.
pub proof fn lemma_hex_odd_padding(digits: Seq<u8>)
    requires
        digits.len() % 2 == 1,
    ensures
        hex_bytes(digits) == hex_bytes(digits.push('0' as u8)),
{
    let padded = digits.push('0' as u8);
    assert forall|i: int| 0 <= i < hex_bytes(digits).len() implies hex_bytes(digits)[i]
        == hex_bytes(padded)[i] by {
        assert(hex_digit_or_zero(digits, 2 * i) == hex_digit_or_zero(padded, 2 * i));
        assert(hex_digit_or_zero(digits, 2 * i + 1) == hex_digit_or_zero(padded, 2 * i + 1));
    }
    assert(hex_bytes(digits) =~= hex_bytes(padded));
}

} // verus!
