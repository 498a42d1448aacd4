use bdecode::{bdecode, BdecodeError, NodeType};

#[test]
fn test_dict_list_no_end() {
    let result_dict = bdecode(b"d");
    assert!(result_dict.is_err());
    let result_list = bdecode(b"l");
    assert!(result_list.is_err());
}

#[test]
fn test_index_empty_dict() {
    let bencode = bdecode(b"de").unwrap();
    let dict_node = bencode.get_root();
    assert_eq!(dict_node.node_type(), NodeType::Dict);
    assert!(dict_node.as_dict().unwrap().get(0).is_none());
    assert!(dict_node.as_dict().unwrap().find(b"my_key").is_none());
}

#[test]
fn test_index_empty_list() {
    let bencode = bdecode(b"le").unwrap();
    let list_node = bencode.get_root();
    assert_eq!(list_node.node_type(), NodeType::List);
    assert!(list_node.as_list().unwrap().get(0).is_none());
}

#[test]
fn test_list_1() {
    let bencode = bdecode(b"l4:spami42ee").unwrap();
    let root_node = bencode.get_root();
    assert_eq!(root_node.node_type(), NodeType::List);
    assert_eq!(root_node.as_list().unwrap().len(), 2);

    // First element is the string `spam`.
    let elem_0 = root_node.as_list().unwrap().get(0).unwrap();
    assert_eq!(elem_0.node_type(), NodeType::Str);
    assert_eq!(elem_0.as_string().unwrap().as_bytes(), b"spam");

    // The second element is the integer `42`.
    let elem_1 = root_node.as_list().unwrap().get(1).unwrap();
    assert_eq!(elem_1.node_type(), NodeType::Int);

    // the list is only of size 2, so this should be out of bounds
    assert!(root_node.as_list().unwrap().get(2).is_none());
}

#[test]
fn test_dict_1() {
    // Corresponds to the following JSON: {"a":{"b":1,"c":"abcd"},"d":3}
    let bencode = bdecode(b"d1:ad1:bi1e1:c4:abcde1:di3ee").unwrap();
    let root_node = bencode.get_root();
    assert_eq!(root_node.node_type(), NodeType::Dict);
    assert_eq!(root_node.as_dict().unwrap().len(), 2);

    let (key0, value0) = root_node.as_dict().unwrap().get(0).unwrap();
    assert_eq!(key0, b"a");
    assert_eq!(value0.node_type(), NodeType::Dict);
    assert_eq!(value0.as_dict().unwrap().len(), 2);

    let (key00, value00) = value0.as_dict().unwrap().get(0).unwrap();
    assert_eq!(key00, b"b");
    assert_eq!(value00.node_type(), NodeType::Int);
    assert_eq!(value00.as_int().unwrap().value().unwrap(), 1);

    let (key01, value01) = value0.as_dict().unwrap().get(1).unwrap();
    assert_eq!(key01, b"c");
    assert_eq!(value01.node_type(), NodeType::Str);
    assert_eq!(value01.as_string().unwrap().as_bytes(), b"abcd");

    let (key1, value1) = root_node.as_dict().unwrap().get(1).unwrap();
    assert_eq!(key1, b"d");
    assert_eq!(value1.node_type(), NodeType::Int);
    assert_eq!(value1.as_int().unwrap().value().unwrap(), 3);
}

#[test]
fn test_list_size() {
    for x in 0..100 {
        let mut bencode_buf = "l".to_string();
        for y in 0..x {
            bencode_buf += &format!("li{}ee", y);
        }
        bencode_buf += "e";
        let bencode = bdecode(bencode_buf.as_bytes()).unwrap();
        let root_node = bencode.get_root();
        assert_eq!(root_node.as_list().unwrap().len(), x)
    }
}

#[test]
fn unterminated_containers_are_unexpected_eof() {
    assert_eq!(bdecode(b"d").err(), Some(BdecodeError::UnexpectedEof));
    assert_eq!(bdecode(b"l").err(), Some(BdecodeError::UnexpectedEof));
    assert_eq!(bdecode(b"ld1:ai1e").err(), Some(BdecodeError::UnexpectedEof));
}

#[test]
fn empty_buffer_is_unexpected_eof() {
    assert_eq!(bdecode(b"").err(), Some(BdecodeError::UnexpectedEof));
}

#[test]
fn closing_byte_without_container_is_unexpected_eof() {
    assert_eq!(bdecode(b"e").err(), Some(BdecodeError::UnexpectedEof));
}

#[test]
fn unterminated_integer_is_unexpected_eof() {
    assert_eq!(bdecode(b"i42").err(), Some(BdecodeError::UnexpectedEof));
    assert_eq!(bdecode(b"li42").err(), Some(BdecodeError::UnexpectedEof));
}

#[test]
fn empty_integer_is_unexpected_eof() {
    assert_eq!(bdecode(b"ie").err(), Some(BdecodeError::UnexpectedEof));
}

#[test]
fn short_string_is_unexpected_eof() {
    assert_eq!(bdecode(b"4:spa").err(), Some(BdecodeError::UnexpectedEof));
    assert_eq!(bdecode(b"1:").err(), Some(BdecodeError::UnexpectedEof));
}

#[test]
fn missing_colon_is_expected_colon() {
    assert_eq!(bdecode(b"4spam").err(), Some(BdecodeError::ExpectedColon));
    assert_eq!(bdecode(b"l4e").err(), Some(BdecodeError::ExpectedColon));
}

#[test]
fn key_that_is_no_string_is_expected_digit() {
    assert_eq!(bdecode(b"di1ei2ee").err(), Some(BdecodeError::ExpectedDigit));
    assert_eq!(bdecode(b"dlee").err(), Some(BdecodeError::ExpectedDigit));
    assert_eq!(bdecode(b"dde").err(), Some(BdecodeError::ExpectedDigit));
}

#[test]
fn letters_in_a_number_are_expected_digit() {
    assert_eq!(bdecode(b"i4x2e").err(), Some(BdecodeError::ExpectedDigit));
    assert_eq!(bdecode(b"i-e").err(), Some(BdecodeError::ExpectedDigit));
    assert_eq!(bdecode(b"x:abc").err(), Some(BdecodeError::ExpectedDigit));
    assert_eq!(bdecode(b"i 1e").err(), Some(BdecodeError::ExpectedDigit));
    assert_eq!(bdecode(b"i+1e").err(), Some(BdecodeError::ExpectedDigit));
}

#[test]
fn key_without_value_is_expected_value() {
    assert_eq!(bdecode(b"d1:ae").err(), Some(BdecodeError::ExpectedValue));
    assert_eq!(bdecode(b"d1:ai1e1:be").err(), Some(BdecodeError::ExpectedValue));
}

#[test]
fn leading_zero_is_refused() {
    assert_eq!(bdecode(b"i042e").err(), Some(BdecodeError::LeadingZero));
    assert_eq!(bdecode(b"i-01e").err(), Some(BdecodeError::LeadingZero));
    assert_eq!(bdecode(b"04:spam").err(), Some(BdecodeError::LeadingZero));
}

#[test]
fn too_many_digits_are_overflow() {
    assert_eq!(bdecode(b"i12345678901234567890e").err(), Some(BdecodeError::Overflow));
    assert_eq!(bdecode(b"12345678901234567890:x").err(), Some(BdecodeError::Overflow));
}

#[test]
fn negative_string_length_is_overflow() {
    assert_eq!(bdecode(b"-5:hello").err(), Some(BdecodeError::Overflow));
}

#[test]
fn string_length_beyond_64_bits_is_overflow() {
    assert_eq!(bdecode(b"9223372036854775808:x").err(), Some(BdecodeError::Overflow));
}

#[test]
fn negative_zero_string_length_is_refused() {
    assert_eq!(bdecode(b"-0:").err(), Some(BdecodeError::NegativeZero));
}

#[test]
fn header_of_eight_bytes_is_limit_exceeded() {
    let mut buf = b"1234567:".to_vec();
    buf.resize(8 + 1234567, b'x');
    assert_eq!(bdecode(&buf).err(), Some(BdecodeError::LimitExceeded));
}

#[test]
fn header_of_seven_bytes_is_accepted() {
    let mut buf = b"123456:".to_vec();
    buf.resize(7 + 123456, b'x');
    let bencode = bdecode(&buf).unwrap();
    let root = bencode.get_root();
    assert_eq!(root.node_type(), NodeType::Str);
    assert_eq!(root.as_string().unwrap().as_bytes().len(), 123456);
}

#[test]
fn bytes_behind_the_value_are_ignored() {
    let bencode = bdecode(b"i1etrailing").unwrap();
    let root = bencode.get_root();
    assert_eq!(root.as_int().unwrap().value(), Ok(1));
    let bencode = bdecode(b"lee").unwrap();
    assert_eq!(bencode.get_root().as_list().unwrap().len(), 0);
}

#[test]
fn empty_string_at_the_end_is_accepted() {
    let bencode = bdecode(b"0:").unwrap();
    let root = bencode.get_root();
    assert_eq!(root.node_type(), NodeType::Str);
    assert_eq!(root.as_string().unwrap().as_bytes(), b"");
    let bencode = bdecode(b"l0:e").unwrap();
    let list = bencode.get_root().as_list().unwrap();
    assert_eq!(list.len(), 1);
    assert_eq!(list.get(0).unwrap().as_string().unwrap().as_bytes(), b"");
}

#[test]
fn root_kind_follows_first_byte() {
    assert_eq!(bdecode(b"de").unwrap().get_root().node_type(), NodeType::Dict);
    assert_eq!(bdecode(b"le").unwrap().get_root().node_type(), NodeType::List);
    assert_eq!(bdecode(b"i0e").unwrap().get_root().node_type(), NodeType::Int);
    assert_eq!(bdecode(b"3:abc").unwrap().get_root().node_type(), NodeType::Str);
}

#[test]
fn string_payload_may_hold_any_byte() {
    let bencode = bdecode(b"5:e:dli").unwrap();
    assert_eq!(bencode.get_root().as_string().unwrap().as_bytes(), b"e:dli");
}

#[test]
fn integer_ends_at_first_e() {
    let bencode = bdecode(b"li42ei7ee").unwrap();
    let list = bencode.get_root().as_list().unwrap();
    assert_eq!(list.len(), 2);
    assert_eq!(list.get(0).unwrap().as_int().unwrap().as_bytes(), b"42");
    assert_eq!(list.get(1).unwrap().as_int().unwrap().as_bytes(), b"7");
}

#[test]
fn integers_round_trip_through_the_decoder() {
    let samples: [i64; 9] = [i64::MIN, i64::MIN + 1, -100000, -1, 0, 1, 42, i64::MAX - 1, i64::MAX];
    for n in samples {
        let encoded = format!("i{}e", n);
        let bencode = bdecode(encoded.as_bytes()).unwrap();
        let root = bencode.get_root();
        assert_eq!(root.node_type(), NodeType::Int);
        assert_eq!(root.as_int().unwrap().value(), Ok(n));
    }
}

#[test]
fn number_of_nineteen_digits_beyond_64_bits_overflows_when_read() {
    let bencode = bdecode(b"i9223372036854775808e").unwrap();
    assert_eq!(bencode.get_root().as_int().unwrap().value(), Err(BdecodeError::Overflow));
    let bencode = bdecode(b"i-9223372036854775809e").unwrap();
    assert_eq!(bencode.get_root().as_int().unwrap().value(), Err(BdecodeError::Overflow));
}

#[test]
fn negative_zero_is_refused_when_read() {
    let bencode = bdecode(b"i-0e").unwrap();
    assert_eq!(bencode.get_root().as_int().unwrap().value(), Err(BdecodeError::NegativeZero));
    let bencode = bdecode(b"i0e").unwrap();
    assert_eq!(bencode.get_root().as_int().unwrap().value(), Ok(0));
}

#[test]
fn deep_nesting_is_accepted() {
    let depth = 10000;
    let mut buf = vec![b'l'; depth];
    buf.resize(2 * depth, b'e');
    let bencode = bdecode(&buf).unwrap();
    let mut node = bencode.get_root();
    let mut seen = 1;
    while let Some(inner) = node.as_list().unwrap().get(0) {
        node = inner;
        seen += 1;
    }
    assert_eq!(seen, depth);
}

#[test]
fn refinement_succeeds_for_the_matching_type_only() {
    let bencode = bdecode(b"l4:spami42edelee").unwrap();
    let list = bencode.get_root().as_list().unwrap();
    let string = list.get(0).unwrap();
    assert!(string.as_string().is_some());
    assert!(string.as_int().is_none() && string.as_list().is_none() && string.as_dict().is_none());
    let int = list.get(1).unwrap();
    assert!(int.as_int().is_some());
    assert!(int.as_string().is_none() && int.as_list().is_none() && int.as_dict().is_none());
    let dict = list.get(2).unwrap();
    assert!(dict.as_dict().is_some());
    assert!(dict.as_string().is_none() && dict.as_list().is_none() && dict.as_int().is_none());
    let inner = list.get(3).unwrap();
    assert!(inner.as_list().is_some());
    assert!(inner.as_string().is_none() && inner.as_dict().is_none() && inner.as_int().is_none());
    assert!(list.get(4).is_none());
}
