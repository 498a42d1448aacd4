use vstd::prelude::*;
use crate::bytes::{DIGIT_NINE, DIGIT_ZERO, MINUS};
use crate::error::BdecodeError;

verus! {

/// The most digits that a number within 64 signed bits can have.
pub const MAX_DIGITS: usize = 19;

/// Whether `byte` is one of the ten ASCII digits.
pub open spec fn is_digit(byte: u8) -> bool {
    DIGIT_ZERO <= byte <= DIGIT_NINE
}

/// Whether every byte of `s` is an ASCII digit.
pub open spec fn all_digits(s: Seq<u8>) -> bool {
    forall|i: int| 0 <= i < s.len() ==> is_digit(#[trigger] s[i])
}

/// Whether the digits `s` start with a zero that is not the only digit.
pub open spec fn has_leading_zero(s: Seq<u8>) -> bool {
    s.len() >= 2 && s[0] == DIGIT_ZERO
}

/// The number that the decimal digits `s` write, the empty sequence
/// writing zero.
pub open spec fn digits_value(s: Seq<u8>) -> int
    decreases s.len(),
{
    if s.len() == 0 {
        0
    } else {
        digits_value(s.drop_last()) * 10 + (s.last() - DIGIT_ZERO)
    }
}

/// The number that the digits `s` write below a minus sign, or without one.
pub open spec fn signed_value(s: Seq<u8>, negative: bool) -> int {
    if negative {
        -digits_value(s)
    } else {
        digits_value(s)
    }
}

/// Whether `v` can be held in 64 signed bits.
pub open spec fn fits_i64(v: int) -> bool {
    i64::MIN <= v <= i64::MAX
}

/// The length of the longest prefix of `s` that is made of digits only.
pub open spec fn digit_run(s: Seq<u8>) -> nat
    decreases s.len(),
{
    if s.len() == 0 {
        0
    } else if all_digits(s) {
        s.len()
    } else {
        digit_run(s.drop_last())
    }
}

/// What the structural check says of a literal: the first of these that
/// applies. An empty literal is `UnexpectedEof`; a lone minus sign, or a byte
/// that is no digit after the optional minus sign, is `ExpectedDigit`; a zero
/// before further digits is `LeadingZero`; more digits than any number
/// within 64 signed bits has is `Overflow`.
pub open spec fn check_integer_spec(s: Seq<u8>) -> Result<(), BdecodeError> {
    if s.len() == 0 {
        Err(BdecodeError::UnexpectedEof)
    } else {
        let numeric_part = if s[0] == MINUS {
            s.skip(1)
        } else {
            s
        };
        if numeric_part.len() == 0 || !all_digits(numeric_part) {
            Err(BdecodeError::ExpectedDigit)
        } else if has_leading_zero(numeric_part) {
            Err(BdecodeError::LeadingZero)
        } else if numeric_part.len() > MAX_DIGITS {
            Err(BdecodeError::Overflow)
        } else {
            Ok(())
        }
    }
}

/// What reading the unsigned part `s` of a literal gives. The digits up to
/// the first other byte are read; if the number they write, negated where
/// `negative` holds, leaves 64 signed bits, that is `Overflow`; else a
/// remaining byte is `ExpectedDigit`; else the number is the result.
pub open spec fn decode_digits_spec(s: Seq<u8>, negative: bool) -> Result<i64, BdecodeError> {
    let v = signed_value(s.take(digit_run(s) as int), negative);
    if !fits_i64(v) {
        Err(BdecodeError::Overflow)
    } else if digit_run(s) < s.len() {
        Err(BdecodeError::ExpectedDigit)
    } else {
        Ok(v as i64)
    }
}

/// What reading the literal `s` gives: an empty literal is `UnexpectedEof`,
/// a first byte that is neither a digit nor a minus sign is `ExpectedDigit`,
/// a literal behind a minus sign that reads as zero is `NegativeZero`.
pub open spec fn decode_int_spec(s: Seq<u8>) -> Result<i64, BdecodeError> {
    if s.len() == 0 {
        Err(BdecodeError::UnexpectedEof)
    } else if s[0] == MINUS {
        match decode_digits_spec(s.skip(1), true) {
            Ok(v) => if v == 0 {
                Err(BdecodeError::NegativeZero)
            } else {
                Ok(v)
            },
            Err(e) => Err(e),
        }
    } else if is_digit(s[0]) {
        decode_digits_spec(s, false)
    } else {
        Err(BdecodeError::ExpectedDigit)
    }
}

/// The longest prefix of digits is made of digits, and the byte behind it,
/// if there is one, is no digit.
pub proof fn lemma_digit_run(s: Seq<u8>)
    ensures
        digit_run(s) <= s.len(),
        all_digits(s.take(digit_run(s) as int)),
        digit_run(s) < s.len() ==> !is_digit(s[digit_run(s) as int]),
    decreases s.len(),
{
    if s.len() == 0 {
    } else if all_digits(s) {
        assert(s.take(s.len() as int) =~= s);
    } else {
        let t = s.drop_last();
        lemma_digit_run(t);
        let p = digit_run(t) as int;
        assert(t.take(p) =~= s.take(p));
        if p == t.len() {
            assert(t.take(p) =~= t);
            if is_digit(s[p]) {
                assert forall|i: int| 0 <= i < s.len() implies is_digit(#[trigger] s[i]) by {
                    if i < p {
                        assert(t[i] == s[i]);
                    }
                }
            }
        } else {
            assert(t[p] == s[p]);
        }
    }
}

/// A prefix of digits that ends before a byte that is no digit, or at the
/// end, is the longest one.
pub proof fn lemma_digit_run_unique(s: Seq<u8>, p: int)
    requires
        0 <= p <= s.len(),
        all_digits(s.take(p)),
        p < s.len() ==> !is_digit(s[p]),
    ensures
        digit_run(s) == p,
    decreases s.len(),
{
    if s.len() == 0 {
    } else if p == s.len() {
        assert(s.take(p) =~= s);
    } else {
        let t = s.drop_last();
        assert(t.take(p) =~= s.take(p));
        if p < t.len() {
            assert(t[p] == s[p]);
        }
        lemma_digit_run_unique(t, p);
    }
}

/// Digits write a number that is not negative and that no prefix of them
/// exceeds.
pub proof fn lemma_digits_value_monotone(s: Seq<u8>, k: int)
    requires
        0 <= k <= s.len(),
        all_digits(s),
    ensures
        0 <= digits_value(s.take(k)) <= digits_value(s),
    decreases s.len(),
{
    if k == s.len() {
        assert(s.take(k) =~= s);
        if s.len() > 0 {
            let t = s.drop_last();
            assert(all_digits(t)) by {
                assert forall|i: int| 0 <= i < t.len() implies is_digit(#[trigger] t[i]) by {
                    assert(t[i] == s[i]);
                }
            }
            lemma_digits_value_monotone(t, t.len() as int);
            assert(is_digit(s[s.len() - 1]));
        }
    } else {
        let t = s.drop_last();
        assert(all_digits(t)) by {
            assert forall|i: int| 0 <= i < t.len() implies is_digit(#[trigger] t[i]) by {
                assert(t[i] == s[i]);
            }
        }
        lemma_digits_value_monotone(t, k);
        lemma_digits_value_monotone(t, t.len() as int);
        assert(t.take(t.len() as int) =~= t);
        assert(t.take(k) =~= s.take(k));
        assert(is_digit(s[s.len() - 1]));
    }
}

/// Check if the given byte represents a numeric digit.
pub fn is_numeric(byte: u8) -> (r: bool)
    ensures
        r == is_digit(byte),
{
    (DIGIT_ZERO <= byte) && (byte <= DIGIT_NINE)
}

/// Whether a sequence of digits, given without a sign, starts with a
/// superfluous zero.
pub fn contains_leading_zeroes(numeric_part: &[u8]) -> (r: bool)
    ensures
        r == has_leading_zero(numeric_part@),
{
    (numeric_part.len() >= 2) && (numeric_part[0] == DIGIT_ZERO)
}

/// Checks that a literal has the shape of an integer: an optional minus
/// sign, then digits without a superfluous zero. Of the numbers that do not
/// fit in 64 signed bits this finds only those with too many digits; the
/// exact test is made when the number is read.
pub fn check_integer(bytes: &[u8]) -> (r: Result<(), BdecodeError>)
    ensures
        r == check_integer_spec(bytes@),
{
    if bytes.len() == 0 {
        return Err(BdecodeError::UnexpectedEof);
    }
    let negative = bytes[0] == MINUS;
    if negative && bytes.len() == 1 {
        return Err(BdecodeError::ExpectedDigit);
    }
    let start: usize = if negative {
        1
    } else {
        0
    };
    let numeric_part = vstd::slice::slice_subrange(bytes, start, bytes.len());
    assert(numeric_part@ =~= (if bytes@[0] == MINUS {
        bytes@.skip(1)
    } else {
        bytes@
    }));
    let mut i: usize = 0;
    while i < numeric_part.len()
        invariant
            i <= numeric_part.len(),
            bytes.len() > 0,
            numeric_part@ == (if bytes@[0] == MINUS {
                bytes@.skip(1)
            } else {
                bytes@
            }),
            forall|j: int| 0 <= j < i ==> is_digit(#[trigger] numeric_part@[j]),
        decreases numeric_part.len() - i,
    {
        if !is_numeric(numeric_part[i]) {
            assert(!is_digit(numeric_part@[i as int]));
            return Err(BdecodeError::ExpectedDigit);
        }
        i += 1;
    }
    if contains_leading_zeroes(numeric_part) {
        return Err(BdecodeError::LeadingZero);
    }
    if numeric_part.len() > MAX_DIGITS {
        return Err(BdecodeError::Overflow);
    }
    Ok(())
}

/// Reads the digits of a literal whose sign has been taken off, into a
/// negative number if `negative` holds. Each step multiplies and then adds
/// or subtracts with a test for overflow, so the least number of 64 signed
/// bits is read without being negated.
pub fn decode_int_no_sign(bytes: &[u8], negative: bool) -> (r: Result<i64, BdecodeError>)
    ensures
        r == decode_digits_spec(bytes@, negative),
{
    let mut result: i64 = 0;
    let mut i: usize = 0;
    while i < bytes.len()
        invariant
            0 <= i <= bytes.len(),
            all_digits(bytes@.take(i as int)),
            result == signed_value(bytes@.take(i as int), negative),
        decreases bytes.len() - i,
    {
        let byte = bytes[i];
        if !is_numeric(byte) {
            proof {
                lemma_digit_run_unique(bytes@, i as int);
            }
            return Err(BdecodeError::ExpectedDigit);
        }
        let digit: i64 = (byte - DIGIT_ZERO) as i64;
        let ghost next = bytes@.take(i + 1);
        proof {
            assert(next.drop_last() =~= bytes@.take(i as int));
            assert(next.last() == byte);
            assert(all_digits(next)) by {
                assert forall|j: int| 0 <= j < next.len() implies is_digit(#[trigger] next[j]) by {
                    if j < i {
                        assert(bytes@.take(i as int)[j] == next[j]);
                    }
                }
            }
            lemma_digit_run(bytes@);
            let p = digit_run(bytes@) as int;
            if p < i + 1 {
                assert(next[p] == bytes@[p]);
            }
            let run = bytes@.take(p);
            assert(run.take(i + 1) =~= next);
            lemma_digits_value_monotone(run, i + 1);
            lemma_digits_value_monotone(next, i as int);
            assert(next.take(i as int) =~= bytes@.take(i as int));
        }
        let scaled: i64 = match result.checked_mul(10) {
            Some(scaled) => scaled,
            None => {
                return Err(BdecodeError::Overflow);
            },
        };
        if negative {
            result =
            match scaled.checked_sub(digit) {
                Some(result) => result,
                None => {
                    return Err(BdecodeError::Overflow);
                },
            };
        } else {
            result =
            match scaled.checked_add(digit) {
                Some(result) => result,
                None => {
                    return Err(BdecodeError::Overflow);
                },
            };
        }
        i += 1;
    }
    proof {
        lemma_digit_run_unique(bytes@, i as int);
        assert(bytes@.take(i as int) =~= bytes@);
    }
    Ok(result)
}

/// Reads a literal as a number of 64 signed bits.
pub fn decode_int(bytes: &[u8]) -> (r: Result<i64, BdecodeError>)
    ensures
        r == decode_int_spec(bytes@),
{
    if bytes.len() == 0 {
        return Err(BdecodeError::UnexpectedEof);
    }
    let first = bytes[0];
    if first == MINUS {
        let rest = vstd::slice::slice_subrange(bytes, 1, bytes.len());
        assert(rest@ =~= bytes@.skip(1));
        match decode_int_no_sign(rest, true) {
            Ok(integer) => {
                if integer == 0 {
                    Err(BdecodeError::NegativeZero)
                } else {
                    Ok(integer)
                }
            },
            Err(e) => Err(e),
        }
    } else if is_numeric(first) {
        decode_int_no_sign(bytes, false)
    } else {
        Err(BdecodeError::ExpectedDigit)
    }
}

} // verus!
