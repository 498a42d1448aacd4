use bdecode::parse_int::{
    check_integer, contains_leading_zeroes, decode_int, decode_int_no_sign, is_numeric,
};
use bdecode::BdecodeError;

fn assert_roundtrip(number: i64, result: bool) {
    let int_string = number.to_string();
    let int_bytes = int_string.as_bytes();
    assert!(check_integer(int_bytes).is_ok());
    assert_eq!(decode_int(int_bytes).unwrap() == number, result);
}

#[test]
fn test_negative_zero() {
    // Negative zero is not allowed
    let neg_zero = b"-0";
    assert_eq!(decode_int(neg_zero), Err(BdecodeError::NegativeZero));
    // But normal zero is allowed
    let zero = b"0";
    assert_eq!(decode_int(zero).unwrap(), 0);
}

#[test]
fn test_leading_zero() {
    assert!(check_integer(b"042").is_err());
    assert!(check_integer(b"0013").is_err());
    assert!(check_integer(b"01012").is_err());
    assert!(check_integer(b"-09005").is_err());
    assert!(check_integer(b"010010000").is_err());
    assert!(check_integer(b"0000012230100012").is_err());
}

#[test]
fn test_biggest_possible_number() {
    assert_roundtrip(i64::MAX, true);
}

#[test]
fn test_smallest_possible_number() {
    assert_roundtrip(i64::MIN, true);
}

#[test]
fn test_lots_of_numbers() {
    for n in -100_000..=100_000 {
        // Creating a string out of the int and then decoding its bytes
        // should work.
        assert_roundtrip(n, true);

        // Do the same but add leading whitespace. This should fail.
        let int_string_2 = " ".to_owned() + &n.to_string();
        let int_bytes_2 = int_string_2.as_bytes();
        assert!(check_integer(int_bytes_2).is_err());

        // Do the same but add a leading zero. This should fail.
        let int_string_3 = "0".to_owned() + &n.to_string();
        let int_bytes_3 = int_string_3.as_bytes();
        assert!(check_integer(int_bytes_3).is_err());

        // Do the same but add a leading plus sign. This should fail.
        let int_string_4 = "+".to_owned() + &n.to_string();
        let int_bytes_4 = int_string_4.as_bytes();
        assert!(check_integer(int_bytes_4).is_err());
    }
}

#[test]
fn test_contains_leading_zeroes() {
    const BAD_EXAMPLES: &[&[u8]] = &[b"04", b"00"];
    const GOOD_EXAMPLES: &[&[u8]] = &[b"4", b"0"];
    for &bad in BAD_EXAMPLES {
        assert!(contains_leading_zeroes(bad));
    }
    for &good in GOOD_EXAMPLES {
        assert!(!contains_leading_zeroes(good));
    }
}

#[test]
fn check_integer_names_the_fault() {
    assert_eq!(check_integer(b""), Err(BdecodeError::UnexpectedEof));
    assert_eq!(check_integer(b"-"), Err(BdecodeError::ExpectedDigit));
    assert_eq!(check_integer(b"12a"), Err(BdecodeError::ExpectedDigit));
    assert_eq!(check_integer(b"--1"), Err(BdecodeError::ExpectedDigit));
    assert_eq!(check_integer(b"00"), Err(BdecodeError::LeadingZero));
    assert_eq!(check_integer(b"-00"), Err(BdecodeError::LeadingZero));
    assert_eq!(check_integer(b"12345678901234567890"), Err(BdecodeError::Overflow));
    assert_eq!(check_integer(b"-12345678901234567890"), Err(BdecodeError::Overflow));
    assert_eq!(check_integer(b"0"), Ok(()));
    assert_eq!(check_integer(b"-0"), Ok(()));
    assert_eq!(check_integer(b"9999999999999999999"), Ok(()));
}

#[test]
fn decode_int_names_the_fault() {
    assert_eq!(decode_int(b""), Err(BdecodeError::UnexpectedEof));
    assert_eq!(decode_int(b"x"), Err(BdecodeError::ExpectedDigit));
    assert_eq!(decode_int(b"+1"), Err(BdecodeError::ExpectedDigit));
    assert_eq!(decode_int(b"1x"), Err(BdecodeError::ExpectedDigit));
    assert_eq!(decode_int(b"-1x"), Err(BdecodeError::ExpectedDigit));
    assert_eq!(decode_int(b"-"), Err(BdecodeError::NegativeZero));
    assert_eq!(decode_int(b"-000"), Err(BdecodeError::NegativeZero));
    assert_eq!(decode_int(b"9223372036854775808"), Err(BdecodeError::Overflow));
    assert_eq!(decode_int(b"-9223372036854775809"), Err(BdecodeError::Overflow));
    assert_eq!(decode_int(b"99999999999999999999x"), Err(BdecodeError::Overflow));
    assert_eq!(decode_int(b"9223372036854775807"), Ok(i64::MAX));
    assert_eq!(decode_int(b"-9223372036854775808"), Ok(i64::MIN));
    assert_eq!(decode_int(b"007"), Ok(7));
    assert_eq!(decode_int(b"-12"), Ok(-12));
}

#[test]
fn decode_int_no_sign_reads_digits() {
    assert_eq!(decode_int_no_sign(b"", false), Ok(0));
    assert_eq!(decode_int_no_sign(b"120", false), Ok(120));
    assert_eq!(decode_int_no_sign(b"120", true), Ok(-120));
    assert_eq!(decode_int_no_sign(b"9223372036854775808", true), Ok(i64::MIN));
    assert_eq!(decode_int_no_sign(b"9223372036854775808", false), Err(BdecodeError::Overflow));
    assert_eq!(decode_int_no_sign(b"-1", false), Err(BdecodeError::ExpectedDigit));
}

#[test]
fn is_numeric_accepts_the_ten_digits() {
    for byte in 0..=255u8 {
        assert_eq!(is_numeric(byte), byte.is_ascii_digit());
    }
}
