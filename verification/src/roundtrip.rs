use vstd::prelude::*;
use crate::bytes::{CLOSE, DIGIT_ZERO, INT_OPEN, MINUS};
use crate::error::BdecodeError;
use crate::parse_int::{
    all_digits,
    check_integer_spec,
    decode_int_spec,
    digits_value,
    has_leading_zero,
    is_digit,
    lemma_digit_run_unique,
};
use crate::progress::lemma_first_index;
use crate::scan::{
    after_leaf,
    decode_spec,
    finish,
    first_index,
    initial_state,
    step,
    step_int,
    Step,
};
use crate::token::{TokenType, TokenView};
use crate::tree::int_bytes;

verus! {

/// The byte of a space.
pub const SPACE: u8 = 32;

/// The byte `+`.
pub const PLUS: u8 = 43;

/// The decimal digits of `n`, without a superfluous zero.
pub open spec fn render_nat(n: nat) -> Seq<u8>
    decreases n,
{
    if n < 10 {
        seq![(DIGIT_ZERO + n) as u8]
    } else {
        render_nat(n / 10).push((DIGIT_ZERO + n % 10) as u8)
    }
}

/// The canonical decimal literal of `n`: a minus sign where `n` is
/// negative, then the digits of its magnitude.
pub open spec fn render(n: int) -> Seq<u8> {
    if n < 0 {
        seq![MINUS] + render_nat((-n) as nat)
    } else {
        render_nat(n as nat)
    }
}

/// Ten to the power of `k`.
pub open spec fn pow10(k: nat) -> nat
    decreases k,
{
    if k == 0 {
        1
    } else {
        10 * pow10((k - 1) as nat)
    }
}

/// The bencoding of the integer `n`: its canonical literal between `i` and
/// `e`.
pub open spec fn encode_int(n: int) -> Seq<u8> {
    seq![INT_OPEN] + render(n) + seq![CLOSE]
}

/// The digits of a number write that number, begin with a zero only for
/// zero itself, and are as few as the number is small.
pub proof fn lemma_render_nat(n: nat, k: nat)
    requires
        k >= 1,
        n < pow10(k),
    ensures
        1 <= render_nat(n).len() <= k,
        all_digits(render_nat(n)),
        digits_value(render_nat(n)) == n,
        render_nat(n)[0] == DIGIT_ZERO <==> n == 0,
        !has_leading_zero(render_nat(n)),
    decreases n,
{
    if n >= 10 {
        assert(k >= 2) by {
            if k == 1 {
                assert(pow10(1) == 10 * pow10(0));
            }
        }
        let head = render_nat(n / 10);
        lemma_render_nat(n / 10, (k - 1) as nat);
        let s = render_nat(n);
        assert(s.drop_last() =~= head);
        assert(s.last() == (DIGIT_ZERO + n % 10) as u8);
        assert(digits_value(s) == digits_value(head) * 10 + (s.last() - DIGIT_ZERO));
        assert(s[0] == head[0]);
        assert forall|i: int| 0 <= i < s.len() implies is_digit(#[trigger] s[i]) by {
            if i < head.len() {
                assert(s[i] == head[i]);
            }
        }
    } else {
        let s = render_nat(n);
        assert(s.drop_last() =~= Seq::<u8>::empty());
        assert(digits_value(s.drop_last()) == 0);
        assert(digits_value(s) == digits_value(s.drop_last()) * 10 + (s.last() - DIGIT_ZERO));
    }
}

/// The magnitude of a number of 64 signed bits.
pub open spec fn magnitude(n: i64) -> nat {
    if n < 0 {
        (-n) as nat
    } else {
        n as nat
    }
}

/// The magnitude of a number of 64 signed bits is written in at most 19
/// digits.
pub proof fn lemma_render_magnitude(n: i64)
    ensures
        1 <= render_nat(magnitude(n)).len() <= 19,
        all_digits(render_nat(magnitude(n))),
        digits_value(render_nat(magnitude(n))) == magnitude(n),
        render_nat(magnitude(n))[0] == DIGIT_ZERO <==> n == 0,
        !has_leading_zero(render_nat(magnitude(n))),
{
    assert(pow10(19) == 10000000000000000000) by {
        reveal_with_fuel(pow10, 20);
    }
    lemma_render_nat(magnitude(n), 19);
}

/// Round trip of an integer: the canonical literal of every number of 64
/// signed bits passes the structural check and reads as that number.
pub proof fn lemma_int_roundtrip(n: i64)
    ensures
        check_integer_spec(render(n as int)).is_ok(),
        decode_int_spec(render(n as int)) == Ok::<i64, BdecodeError>(n),
{
    let digits = render_nat(magnitude(n));
    lemma_render_magnitude(n);
    assert(digits.take(digits.len() as int) =~= digits);
    lemma_digit_run_unique(digits, digits.len() as int);
    if n < 0 {
        assert(render(n as int).skip(1) =~= digits);
    }
}

/// A space, a zero or a plus sign before the canonical literal of a number
/// makes a literal that the structural check refuses.
pub proof fn lemma_prefixed_is_refused(n: i64, prefix: u8)
    requires
        prefix == SPACE || prefix == DIGIT_ZERO || prefix == PLUS,
    ensures
        check_integer_spec(seq![prefix] + render(n as int)).is_err(),
{
    let s = seq![prefix] + render(n as int);
    lemma_render_magnitude(n);
    assert(s[0] == prefix);
    if prefix == DIGIT_ZERO {
        assert(s[1] == render(n as int)[0]);
        if n < 0 {
            assert(!is_digit(s[1]));
        }
    } else {
        assert(!is_digit(s[0]));
    }
}

/// A literal that passes the structural check holds no `e`.
pub proof fn lemma_checked_literal_has_no_e(s: Seq<u8>)
    requires
        check_integer_spec(s).is_ok(),
    ensures
        forall|i: int| 0 <= i < s.len() ==> s[i] != CLOSE,
{
    assert forall|i: int| 0 <= i < s.len() implies s[i] != CLOSE by {
        if s[0] == MINUS {
            if i > 0 {
                assert(is_digit(s.skip(1)[i - 1]));
            }
        } else {
            assert(is_digit(s[i]));
        }
    }
}

/// In the bencoding of an integer the first `e` is the last byte.
pub proof fn lemma_encoded_int_end(n: i64)
    ensures
        encode_int(n as int).len() == render(n as int).len() + 2,
        encode_int(n as int).len() <= 22,
        encode_int(n as int)[0] == INT_OPEN,
        first_index(encode_int(n as int), CLOSE) == Some((render(n as int).len() + 1) as nat),
        encode_int(n as int).subrange(1, render(n as int).len() as int + 1) == render(n as int),
{
    let literal = render(n as int);
    let buf = encode_int(n as int);
    lemma_render_magnitude(n);
    lemma_int_roundtrip(n);
    lemma_checked_literal_has_no_e(literal);
    let end = literal.len() as int + 1;
    assert(buf[end] == CLOSE);
    assert forall|j: int| 0 <= j < end implies buf[j] != CLOSE by {
        if j > 0 {
            assert(buf[j] == literal[j - 1]);
        }
    }
    lemma_first_index(buf, CLOSE);
    assert(buf.subrange(1, end) =~= literal);
}

/// The tokens of the bencoding of an integer: the integer at byte 0, and
/// the end marker behind the buffer.
pub open spec fn encoded_int_tokens(n: int) -> Seq<TokenView> {
    seq![
        TokenView { offset: 0, kind: TokenType::Int, next_item: 1, header: 1 },
        TokenView { offset: encode_int(n).len(), kind: TokenType::End, next_item: 0, header: 0 },
    ]
}

/// Round trip of an integer through the decoder: the bencoding of every
/// number of 64 signed bits decodes to one integer token and the end
/// marker, and the literal of that token reads as the number.
pub proof fn lemma_encoded_int_decodes(n: i64)
    ensures
        decode_spec(encode_int(n as int)) == Ok::<Seq<TokenView>, BdecodeError>(
            encoded_int_tokens(n as int),
        ),
        decode_int_spec(int_bytes(encode_int(n as int), encoded_int_tokens(n as int), 0)) == Ok::<
            i64,
            BdecodeError,
        >(n),
{
    let buf = encode_int(n as int);
    let literal = render(n as int);
    lemma_encoded_int_end(n);
    lemma_int_roundtrip(n);
    let end = literal.len() as int + 1;
    assert(buf.skip(0) =~= buf);
    let st = initial_state();
    let tok = TokenView { offset: 0, kind: TokenType::Int, next_item: 1, header: 1 };
    let next = after_leaf(st, tok, (end + 1) as nat);
    assert(step_int(buf, st) == Step::Next(next));
    assert(step(buf, st) == Step::Next(next));
    assert(next.stack.len() == 0);
    assert(finish(next) =~= encoded_int_tokens(n as int));
    assert(int_bytes(buf, encoded_int_tokens(n as int), 0) =~= literal);
}

} // verus!
