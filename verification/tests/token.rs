use bdecode::token::{Token, TokenType};
use bdecode::BdecodeError;
use std::mem;

#[test]
fn test_token_fields() {
    let mut tok = Token::new(42, TokenType::Dict, 11, 7).unwrap();
    assert_eq!(tok.offset(), 42);
    assert_eq!(tok.token_type(), TokenType::Dict);
    assert_eq!(tok.next_item(), 11);
    assert_eq!(tok.header(), 7);

    tok.set_next_item(29312).unwrap();
    // After setting next item, the rest of the fields should stay the
    // same.
    assert_eq!(tok.offset(), 42);
    assert_eq!(tok.token_type(), TokenType::Dict);
    assert_eq!(tok.next_item(), 29312);
    assert_eq!(tok.header(), 7);
}

#[test]
fn test_token_size() {
    assert_eq!(mem::size_of::<Token>(), 8);
}

#[test]
fn token_refuses_fields_that_are_too_wide() {
    let max = (1usize << 29) - 1;
    assert!(Token::new(max, TokenType::End, max, 7).is_ok());
    assert_eq!(Token::new(max + 1, TokenType::Str, 1, 0).err(), Some(BdecodeError::LimitExceeded));
    assert_eq!(Token::new(0, TokenType::Str, max + 1, 0).err(), Some(BdecodeError::LimitExceeded));
    assert_eq!(Token::new(0, TokenType::Str, 1, 8).err(), Some(BdecodeError::LimitExceeded));
    let mut tok = Token::new(max, TokenType::List, 0, 3).unwrap();
    assert_eq!(tok.set_next_item(max + 1), Err(BdecodeError::LimitExceeded));
    assert_eq!(tok.next_item(), 0);
    assert_eq!(tok.set_next_item(max), Ok(()));
    assert_eq!(tok.next_item(), max);
    assert_eq!(tok.offset(), max);
    assert_eq!(tok.header(), 3);
    assert_eq!(tok.token_type(), TokenType::List);
}

#[test]
fn token_keeps_every_kind() {
    let kinds = [TokenType::Dict, TokenType::List, TokenType::Str, TokenType::Int, TokenType::End];
    for kind in kinds {
        let tok = Token::new(5, kind, 1, 2).unwrap();
        assert_eq!(tok.token_type(), kind);
        assert_eq!(tok.offset(), 5);
        assert_eq!(tok.next_item(), 1);
        assert_eq!(tok.header(), 2);
    }
}
