//! Numbers as the file format writes them: a sign, decimal digits and an
//! optional decimal point. A number is kept exactly, as an integer mantissa
//! and the count of digits behind the point.
use crate::scan::{is_digit, lemma_run_end, run_end, scan_run, ByteClass};
use vstd::arithmetic::div_mod::lemma_div_denominator;
use vstd::prelude::*;

verus! {

/// The number `mantissa / 10^scale`, negated where `negative` holds.
#[derive(Clone, Copy, Debug, PartialEq, Eq, Structural)]
pub struct Decimal {
    pub negative: bool,
    pub mantissa: u64,
    pub scale: u32,
}

pub open spec fn pow10(n: nat) -> nat
    decreases n,
{
    if n == 0 {
        1
    } else {
        10 * pow10((n - 1) as nat)
    }
}

pub proof fn lemma_pow10_positive(n: nat)
    ensures
        pow10(n) > 0,
    decreases n,
{
    if n > 0 {
        lemma_pow10_positive((n - 1) as nat);
    }
}

pub open spec fn digit_of(b: u8) -> nat {
    (b - '0' as u8) as nat
}

/// The number that `acc` becomes when the decimal digits are written behind it.
pub open spec fn append_digits(acc: nat, digits: Seq<u8>) -> nat
    decreases digits.len(),
{
    if digits.len() == 0 {
        acc
    } else {
        append_digits(acc, digits.drop_last()) * 10 + digit_of(digits.last())
    }
}

/// The number that a sequence of decimal digits denotes.
pub open spec fn digits_value(digits: Seq<u8>) -> nat {
    append_digits(0, digits)
}

pub open spec fn all_digits(s: Seq<u8>) -> bool {
    forall|i: int| 0 <= i < s.len() ==> is_digit(#[trigger] s[i])
}

/// Writing more digits behind a number never makes it smaller.
pub proof fn lemma_append_digits_grows(acc: nat, digits: Seq<u8>, k: int)
    requires
        0 <= k <= digits.len(),
    ensures
        append_digits(acc, digits.take(k)) <= append_digits(acc, digits),
    decreases digits.len() - k,
{
    if k < digits.len() {
        lemma_append_digits_grows(acc, digits.drop_last(), k);
        assert(digits.drop_last().take(k) =~= digits.take(k));
    } else {
        assert(digits.take(k) =~= digits);
    }
}

/// Digits written in two parts give what they give written at once.
pub proof fn lemma_append_digits_concat(acc: nat, a: Seq<u8>, b: Seq<u8>)
    ensures
        append_digits(append_digits(acc, a), b) == append_digits(acc, a + b),
    decreases b.len(),
{
    if b.len() == 0 {
        assert(a + b =~= a);
    } else {
        lemma_append_digits_concat(acc, a, b.drop_last());
        assert((a + b).drop_last() =~= a + b.drop_last());
        assert((a + b).last() == b.last());
    }
}

/// The digits `input[start..end]` written behind `acc`, where that fits.
pub fn accumulate_digits(input: &[u8], start: usize, end: usize, acc: u64) -> (r: Option<u64>)
    requires
        start <= end <= input@.len(),
        forall|i: int| start <= i < end ==> is_digit(#[trigger] input@[i]),
    ensures
        r == if append_digits(acc as nat, input@.subrange(start as int, end as int)) <= u64::MAX {
            Some(append_digits(acc as nat, input@.subrange(start as int, end as int)) as u64)
        } else {
            None
        },
{
    let ghost digits = input@.subrange(start as int, end as int);
    let mut value: u64 = acc;
    let mut i: usize = start;
    assert(digits.take(0) =~= Seq::<u8>::empty());
    while i < end
        invariant
            start <= i <= end <= input@.len(),
            digits == input@.subrange(start as int, end as int),
            forall|i: int| start <= i < end ==> is_digit(#[trigger] input@[i]),
            value == append_digits(acc as nat, digits.take(i - start)),
        decreases end - i,
    {
        let b: u8 = input[i];
        proof {
            assert(digits[i - start] == b);
            assert(digits.take(i - start + 1).drop_last() =~= digits.take(i - start));
            assert(digits.take(i - start + 1).last() == b);
            lemma_append_digits_grows(acc as nat, digits, i - start + 1);
        }
        let d: u64 = (b - '0' as u8) as u64;
        if value > (u64::MAX - d) / 10 {
            return None;
        }
        value = value * 10 + d;
        i = i + 1;
    }
    assert(digits.take(end - start) =~= digits);
    Some(value)
}

/// The value of a non-empty sequence of decimal digits that fits in 64 bits.
pub open spec fn unsigned_value(s: Seq<u8>) -> Option<u64> {
    if s.len() > 0 && all_digits(s) && digits_value(s) <= u64::MAX {
        Some(digits_value(s) as u64)
    } else {
        None
    }
}

/// Reads the whole of `word` as an unsigned decimal integer.
pub fn parse_unsigned(word: &[u8]) -> (r: Option<u64>)
    ensures
        r == unsigned_value(word@),
{
    let stop: usize = scan_run(word, 0, ByteClass::Digit);
    proof {
        lemma_run_end(word@, 0, ByteClass::Digit);
        assert(word@.subrange(0, word@.len() as int) =~= word@);
    }
    if word.len() == 0 || stop < word.len() {
        return None;
    }
    accumulate_digits(word, 0, word.len(), 0)
}

/// How many bytes of `s` are its sign.
pub open spec fn sign_len(s: Seq<u8>) -> int {
    if s.len() > 0 && (s[0] == '-' as u8 || s[0] == '+' as u8) {
        1
    } else {
        0
    }
}

/// Where the digits before the point end.
pub open spec fn whole_end(s: Seq<u8>) -> int {
    run_end(s, sign_len(s), ByteClass::Digit)
}

/// Where the digits behind the point start: behind the point if there is one.
pub open spec fn fraction_start(s: Seq<u8>) -> int {
    if whole_end(s) < s.len() && s[whole_end(s)] == '.' as u8 {
        whole_end(s) + 1
    } else {
        whole_end(s)
    }
}

/// The digits of a number, with the sign and the point left out.
pub open spec fn decimal_digits(s: Seq<u8>) -> Seq<u8> {
    s.subrange(sign_len(s), whole_end(s)) + s.subrange(fraction_start(s), s.len() as int)
}

/// The number that the bytes `s` denote: an optional sign, digits, and an
/// optional point with digits behind it, with a digit on at least one side.
/// `None` where `s` is written otherwise or the number does not fit.
pub open spec fn decimal_value(s: Seq<u8>) -> Option<Decimal> {
    if run_end(s, fraction_start(s), ByteClass::Digit) == s.len() && decimal_digits(s).len() > 0
        && digits_value(decimal_digits(s)) <= u64::MAX && s.len() - fraction_start(s) <= u32::MAX {
        Some(
            Decimal {
                negative: s[0] == '-' as u8,
                mantissa: digits_value(decimal_digits(s)) as u64,
                scale: (s.len() - fraction_start(s)) as u32,
            },
        )
    } else {
        None
    }
}

/// Reads the whole of `word` as a number.
pub fn parse_decimal(word: &[u8]) -> (r: Option<Decimal>)
    ensures
        r == decimal_value(word@),
{
    let len: usize = word.len();
    let signed: bool = 0 < len && (word[0] == '-' as u8 || word[0] == '+' as u8);
    let negative: bool = 0 < len && word[0] == '-' as u8;
    let body: usize = if signed {
        1
    } else {
        0
    };
    let point: usize = scan_run(word, body, ByteClass::Digit);
    let pointed: bool = point < len && word[point] == '.' as u8;
    let behind: usize = if pointed {
        point + 1
    } else {
        point
    };
    let stop: usize = scan_run(word, behind, ByteClass::Digit);
    proof {
        lemma_run_end(word@, body as int, ByteClass::Digit);
        lemma_run_end(word@, behind as int, ByteClass::Digit);
    }
    if stop < len || (point - body) + (len - behind) == 0 || len - behind > u32::MAX as usize {
        return None;
    }
    let ghost whole = word@.subrange(body as int, point as int);
    let ghost fraction = word@.subrange(behind as int, len as int);
    proof {
        lemma_append_digits_concat(0, whole, fraction);
        lemma_append_digits_grows(0, whole + fraction, whole.len() as int);
        assert((whole + fraction).take(whole.len() as int) =~= whole);
    }
    let high: u64 = match accumulate_digits(word, body, point, 0) {
        Some(v) => v,
        None => {
            return None;
        },
    };
    match accumulate_digits(word, behind, len, high) {
        Some(mantissa) => Some(Decimal { negative, mantissa, scale: (len - behind) as u32 }),
        None => None,
    }
}

impl Decimal {
    /// The number as a mathematical integer, rounded towards zero.
    pub open spec fn truncated(self) -> int {
        if self.negative {
            -((self.mantissa as nat / pow10(self.scale as nat)) as int)
        } else {
            (self.mantissa as nat / pow10(self.scale as nat)) as int
        }
    }

    /// The non-negative integer `value`.
    pub fn from_u64(value: u64) -> (r: Decimal)
        ensures
            r == (Decimal { negative: false, mantissa: value, scale: 0 }),
            r.truncated() == value,
    {
        assert(pow10(0) == 1);
        assert(value as nat / 1 == value as nat);
        Decimal { negative: false, mantissa: value, scale: 0 }
    }

    /// The number rounded towards zero, and zero in place of a negative
    /// number: what a cast to an unsigned integer gives.
    pub fn to_u64(&self) -> (r: u64)
        ensures
            r == if self.negative {
                0
            } else {
                self.truncated()
            },
    {
        if self.negative {
            return 0;
        }
        let mut value: u64 = self.mantissa;
        let mut k: u32 = 0;
        assert(pow10(0) == 1);
        while k < self.scale && value > 0
            invariant
                k <= self.scale,
                value == self.mantissa as nat / pow10(k as nat),
            decreases self.scale - k,
        {
            proof {
                lemma_pow10_positive(k as nat);
                lemma_div_denominator(self.mantissa as int, pow10(k as nat) as int, 10);
                assert(pow10(k as nat) * 10 == pow10((k + 1) as nat));
            }
            value = value / 10;
            k = k + 1;
        }
        proof {
            if k < self.scale {
                lemma_zero_stays_zero(self.mantissa as nat, k as nat, self.scale as nat);
            }
        }
        value
    }
}

/// A quotient that is zero stays zero under a larger power of ten.
pub proof fn lemma_zero_stays_zero(m: nat, k: nat, n: nat)
    requires
        k <= n,
        m / pow10(k) == 0,
    ensures
        m / pow10(n) == 0,
    decreases n - k,
{
    if k < n {
        lemma_pow10_positive(k);
        lemma_div_denominator(m as int, pow10(k) as int, 10);
        assert(pow10(k) * 10 == pow10(k + 1));
        lemma_zero_stays_zero(m, k + 1, n);
    }
}

} // verus!
