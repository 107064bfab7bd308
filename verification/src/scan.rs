//! Byte classes of the file format and the scanning of runs of bytes.
use vstd::prelude::*;

verus! {

pub const NUL: u8 = 0x00;
pub const HT: u8 = 0x09;
pub const LF: u8 = 0x0A;
pub const FF: u8 = 0x0C;
pub const CR: u8 = 0x0D;
pub const SP: u8 = 0x20;

/// The six octets that separate tokens.
pub open spec fn is_whitespace(b: u8) -> bool {
    b == SP || b == LF || b == CR || b == HT || b == FF || b == NUL
}

/// The bytes that end a name or a keyword without being white space.
pub open spec fn is_delimiter(b: u8) -> bool {
    b == '/' as u8 || b == '<' as u8 || b == '[' as u8 || b == '(' as u8 || b == '>' as u8 || b
        == ']' as u8
}

pub open spec fn is_digit(b: u8) -> bool {
    '0' as u8 <= b <= '9' as u8
}

pub open spec fn is_octal_digit(b: u8) -> bool {
    '0' as u8 <= b <= '7' as u8
}

pub open spec fn is_hex_digit(b: u8) -> bool {
    is_digit(b) || ('a' as u8 <= b <= 'f' as u8) || ('A' as u8 <= b <= 'F' as u8)
}

pub open spec fn is_line_end(b: u8) -> bool {
    b == LF || b == CR
}

/// A set of bytes that a run is made of.
#[derive(Clone, Copy, Debug, PartialEq, Eq, Structural)]
pub enum ByteClass {
    /// White space.
    Whitespace,
    /// Anything but white space and delimiters: the bytes of a name or keyword.
    Regular,
    /// Decimal digits.
    Digit,
    /// Hexadecimal digits of either case.
    HexDigit,
    /// Anything but a line feed or a carriage return.
    InLine,
}

pub open spec fn in_class(class: ByteClass, b: u8) -> bool {
    match class {
        ByteClass::Whitespace => is_whitespace(b),
        ByteClass::Regular => !is_whitespace(b) && !is_delimiter(b),
        ByteClass::Digit => is_digit(b),
        ByteClass::HexDigit => is_hex_digit(b),
        ByteClass::InLine => !is_line_end(b),
    }
}

/// The end of the longest run of bytes of `class` that starts at `pos`:
/// the first position from `pos` on that holds no byte of the class.
pub open spec fn run_end(s: Seq<u8>, pos: int, class: ByteClass) -> int
    decreases s.len() - pos,
{
    if 0 <= pos < s.len() && in_class(class, s[pos]) {
        run_end(s, pos + 1, class)
    } else {
        pos
    }
}

/// `run_end` is the one position that a run of the class leads to.
pub proof fn lemma_run_end(s: Seq<u8>, pos: int, class: ByteClass)
    requires
        0 <= pos <= s.len(),
    ensures
        pos <= run_end(s, pos, class) <= s.len(),
        forall|i: int| pos <= i < run_end(s, pos, class) ==> in_class(class, #[trigger] s[i]),
        run_end(s, pos, class) < s.len() ==> !in_class(class, s[run_end(s, pos, class)]),
    decreases s.len() - pos,
{
    if pos < s.len() && in_class(class, s[pos]) {
        lemma_run_end(s, pos + 1, class);
    }
}

/// Any position that a run of the class leads to is `run_end`.
pub proof fn lemma_run_end_unique(s: Seq<u8>, pos: int, class: ByteClass, end: int)
    requires
        0 <= pos <= end <= s.len(),
        forall|i: int| pos <= i < end ==> in_class(class, #[trigger] s[i]),
        end < s.len() ==> !in_class(class, s[end]),
    ensures
        run_end(s, pos, class) == end,
    decreases end - pos,
{
    if pos < end {
        lemma_run_end_unique(s, pos + 1, class, end);
    }
}

pub fn is_whitespace_byte(b: u8) -> (r: bool)
    ensures
        r == is_whitespace(b),
{
    b == SP || b == LF || b == CR || b == HT || b == FF || b == NUL
}

pub fn is_delimiter_byte(b: u8) -> (r: bool)
    ensures
        r == is_delimiter(b),
{
    b == '/' as u8 || b == '<' as u8 || b == '[' as u8 || b == '(' as u8 || b == '>' as u8 || b
        == ']' as u8
}

pub fn is_digit_byte(b: u8) -> (r: bool)
    ensures
        r == is_digit(b),
{
    '0' as u8 <= b && b <= '9' as u8
}

pub fn is_octal_digit_byte(b: u8) -> (r: bool)
    ensures
        r == is_octal_digit(b),
{
    '0' as u8 <= b && b <= '7' as u8
}

pub fn is_hex_digit_byte(b: u8) -> (r: bool)
    ensures
        r == is_hex_digit(b),
{
    is_digit_byte(b) || ('a' as u8 <= b && b <= 'f' as u8) || ('A' as u8 <= b && b <= 'F' as u8)
}

pub fn class_has(class: ByteClass, b: u8) -> (r: bool)
    ensures
        r == in_class(class, b),
{
    match class {
        ByteClass::Whitespace => is_whitespace_byte(b),
        ByteClass::Regular => !is_whitespace_byte(b) && !is_delimiter_byte(b),
        ByteClass::Digit => is_digit_byte(b),
        ByteClass::HexDigit => is_hex_digit_byte(b),
        ByteClass::InLine => !(b == LF || b == CR),
    }
}

/// Scans the run of bytes of `class` that starts at `pos`.
pub fn scan_run(input: &[u8], pos: usize, class: ByteClass) -> (end: usize)
    ensures
        end == run_end(input@, pos as int, class),
        pos <= end,
        pos <= input@.len() ==> end <= input@.len(),
{
    let mut i: usize = pos;
    while i < input.len() && class_has(class, input[i])
        invariant
            pos <= i,
            pos <= input@.len() ==> i <= input@.len(),
            run_end(input@, pos as int, class) == run_end(input@, i as int, class),
        decreases input@.len() - i,
    {
        i = i + 1;
    }
    i
}

/// Whether the bytes of `word` stand in `input` from `pos` on.
pub open spec fn has_bytes_at(s: Seq<u8>, pos: int, word: Seq<u8>) -> bool {
    0 <= pos && pos + word.len() <= s.len() && s.subrange(pos, pos + word.len()) == word
}

pub fn starts_with_at(input: &[u8], pos: usize, word: &[u8]) -> (r: bool)
    ensures
        r == has_bytes_at(input@, pos as int, word@),
{
    if pos > input.len() || word.len() > input.len() - pos {
        return false;
    }
    let mut i: usize = 0;
    while i < word.len()
        invariant
            i <= word@.len(),
            pos + word@.len() <= input@.len() <= usize::MAX,
            forall|k: int| 0 <= k < i ==> input@[pos + k] == word@[k],
        decreases word@.len() - i,
    {
        if input[pos + i] != word[i] {
            proof {
                let sub = input@.subrange(pos as int, pos + word@.len());
                assert(sub[i as int] == input@[pos + i]);
            }
            return false;
        }
        i = i + 1;
    }
    assert(input@.subrange(pos as int, pos + word@.len()) =~= word@);
    true
}

/// Copies `input[start..end]`.
pub fn copy_range(input: &[u8], start: usize, end: usize) -> (out: Vec<u8>)
    requires
        start <= end <= input@.len(),
    ensures
        out@ == input@.subrange(start as int, end as int),
{
    let mut out: Vec<u8> = Vec::new();
    let mut i: usize = start;
    while i < end
        invariant
            start <= i <= end <= input@.len(),
            out@ == input@.subrange(start as int, i as int),
        decreases end - i,
    {
        out.push(input[i]);
        i = i + 1;
    }
    out
}

/// Whether two byte strings hold the same bytes.
pub fn bytes_eq(a: &[u8], b: &[u8]) -> (r: bool)
    ensures
        r == (a@ == b@),
{
    if a.len() != b.len() {
        return false;
    }
    let mut i: usize = 0;
    while i < a.len()
        invariant
            i <= a@.len(),
            a@.len() == b@.len(),
            forall|k: int| 0 <= k < i ==> a@[k] == b@[k],
        decreases a@.len() - i,
    {
        if a[i] != b[i] {
            return false;
        }
        i = i + 1;
    }
    assert(a@ =~= b@);
    true
}

} // verus!
