use vstd::prelude::*;
use crate::bytes::{CLOSE, COLON, DICT_OPEN, INT_OPEN, LIST_OPEN};
use crate::layout::{
    describes,
    items_ok,
    lemma_items_agree,
    lemma_items_append,
    lemma_items_flags,
    node_ok,
    span_at,
    span_ok,
};
use crate::error::BdecodeError;
use crate::parse_int::{check_integer_spec, decode_int_spec, is_digit};
use crate::scan::{
    after_close,
    after_leaf,
    after_open,
    decode_spec,
    finish,
    first_index,
    in_dict,
    initial_state,
    lemma_step_advances,
    run,
    step,
    ScanState,
    Step,
};
use crate::stack_frame::StackFrameState;
use crate::token::{TokenType, TokenView, MAX_HEADER, MAX_OFFSET};

verus! {

/// The index at which the items of the open container `j` end for now:
/// where the next open container begins, or the end of the tokens.
pub open spec fn frame_stop(st: ScanState, j: int) -> int {
    if j + 1 < st.stack.len() {
        st.stack[j + 1].token as int
    } else {
        st.tokens.len() as int
    }
}

/// Whether the open container `j` is in order: its token opens a container,
/// the tokens behind it are a run of well-formed items, and a dictionary
/// expects a key exactly where its frame says so. A dictionary that holds an
/// open container has read a key before it and has already turned to the
/// next key.
pub open spec fn frame_ok(st: ScanState, j: int) -> bool {
    let first = st.stack[j].token as int;
    let dict = st.tokens[first].kind == TokenType::Dict;
    let inner = j + 1 < st.stack.len();
    &&& first < frame_stop(st, j) <= st.tokens.len()
    &&& (dict || st.tokens[first].kind == TokenType::List)
    &&& items_ok(
        st.tokens,
        first + 1,
        frame_stop(st, j),
        dict,
        true,
        !inner && st.stack[j].state == StackFrameState::Key,
    )
    &&& (inner && dict ==> st.stack[j].state == StackFrameState::Key)
}

/// The byte at which the token behind token `i` begins; for the last token
/// the byte that the decoder has come to.
pub open spec fn next_offset(st: ScanState, i: int) -> int {
    if i + 1 < st.tokens.len() {
        st.tokens[i + 1].offset as int
    } else {
        st.off as int
    }
}

/// Whether token `i` agrees with the bytes that it stands for.
pub open spec fn token_ok(buf: Seq<u8>, st: ScanState, i: int) -> bool {
    span_ok(buf, st.tokens[i], next_offset(st, i))
}

/// What holds of the decoder's state between two steps.
pub open spec fn scan_ok(buf: Seq<u8>, st: ScanState) -> bool {
    &&& st.tokens.len() <= st.off <= buf.len()
    &&& buf.len() <= MAX_OFFSET
    &&& (st.stack.len() == 0 ==> st.tokens.len() == 0 && st.off == 0)
    &&& (st.stack.len() > 0 ==> st.stack[0].token == 0 && st.tokens.len() > 0
        && st.tokens[0].offset == 0)
    &&& forall|j: int| 0 <= j < st.stack.len() ==> #[trigger] frame_ok(st, j)
    &&& forall|i: int| 0 <= i < st.tokens.len() ==> #[trigger] token_ok(buf, st, i)
}

/// What the search for a byte finds is the first place where it stands.
pub proof fn lemma_first_index(s: Seq<u8>, needle: u8)
    ensures
        match first_index(s, needle) {
            Some(i) => i < s.len() && s[i as int] == needle && forall|j: int|
                0 <= j < i ==> s[j] != needle,
            None => forall|j: int| 0 <= j < s.len() ==> s[j] != needle,
        },
    decreases s.len(),
{
    if s.len() > 0 && s[0] != needle {
        let rest = s.skip(1);
        lemma_first_index(rest, needle);
        match first_index(rest, needle) {
            Some(i) => {
                assert(rest[i as int] == s[i as int + 1]);
                assert forall|j: int| 0 <= j < i + 1 implies s[j] != needle by {
                    if j > 0 {
                        assert(rest[j - 1] == s[j]);
                    }
                }
            },
            None => {
                assert forall|j: int| 0 <= j < s.len() implies s[j] != needle by {
                    if j > 0 {
                        assert(rest[j - 1] == s[j]);
                    }
                }
            },
        }
    }
}

/// Opening a container keeps the decoder's state in order.
pub proof fn lemma_open(buf: Seq<u8>, st: ScanState, kind: TokenType)
    requires
        scan_ok(buf, st),
        st.off < buf.len(),
        (kind == TokenType::Dict && buf[st.off as int] == DICT_OPEN) || (kind == TokenType::List
            && buf[st.off as int] == LIST_OPEN),
        !(in_dict(st) && st.stack.last().state == StackFrameState::Key),
    ensures
        scan_ok(buf, after_open(st, kind)),
{
    let next = after_open(st, kind);
    let t = st.tokens;
    let t2 = next.tokens;
    let m = t.len() as int;
    let k = st.stack.len() as int;
    assert forall|j: int| 0 <= j < next.stack.len() implies #[trigger] frame_ok(next, j) by {
        if j == k {
            assert(items_ok(t2, m + 1, m + 1, kind == TokenType::Dict, true, true));
        } else {
            assert(frame_ok(st, j));
            let first = st.stack[j].token as int;
            let dict = t[first].kind == TokenType::Dict;
            assert(next.stack[j].token == first);
            assert(t2[first] == t[first]);
            assert(frame_stop(next, j) == frame_stop(st, j));
            let stop = frame_stop(st, j);
            let was = j + 1 >= k && st.stack[j].state == StackFrameState::Key;
            lemma_items_agree(t, t2, first + 1, stop, dict, true, was);
            if dict {
                if j == k - 1 {
                    assert(in_dict(st));
                }
            } else {
                lemma_items_flags(t2, first + 1, stop, true, was, true, false);
            }
        }
    }
    assert forall|i: int| 0 <= i < t2.len() implies #[trigger] token_ok(buf, next, i) by {
        if i < m {
            assert(token_ok(buf, st, i));
            assert(t2[i] == t[i]);
            assert(next_offset(next, i) == next_offset(st, i));
        }
    }
}

/// Reading a string or an integer keeps the decoder's state in order, or
/// finishes a buffer that holds nothing but that value.
pub proof fn lemma_leaf(buf: Seq<u8>, st: ScanState, tok: TokenView, next_off: nat)
    requires
        scan_ok(buf, st),
        tok.offset == st.off,
        tok.next_item == 1,
        tok.kind == TokenType::Str || tok.kind == TokenType::Int,
        span_ok(buf, tok, next_off as int),
        in_dict(st) && st.stack.last().state == StackFrameState::Key ==> tok.kind
            == TokenType::Str,
    ensures
        after_leaf(st, tok, next_off).stack.len() > 0 ==> scan_ok(
            buf,
            after_leaf(st, tok, next_off),
        ),
        after_leaf(st, tok, next_off).stack.len() == 0 ==> describes(
            buf,
            finish(after_leaf(st, tok, next_off)),
        ),
{
    let next = after_leaf(st, tok, next_off);
    let t = st.tokens;
    let t2 = next.tokens;
    let m = t.len() as int;
    let k = st.stack.len() as int;
    assert(node_ok(t2, m));
    assert forall|i: int| 0 <= i < t2.len() implies #[trigger] token_ok(buf, next, i) by {
        if i < m {
            assert(token_ok(buf, st, i));
            assert(t2[i] == t[i]);
            assert(next_offset(next, i) == next_offset(st, i));
        }
    }
    if k == 0 {
        let done = finish(next);
        assert(done[0] == tok);
        assert(node_ok(done, 0));
        assert forall|i: int| 0 <= i < done.len() - 1 implies #[trigger] span_at(buf, done, i) by {
            assert(token_ok(buf, next, i));
        }
    } else {
        assert forall|j: int| 0 <= j < next.stack.len() implies #[trigger] frame_ok(next, j) by {
            assert(frame_ok(st, j));
            let first = st.stack[j].token as int;
            let dict = t[first].kind == TokenType::Dict;
            assert(next.stack[j].token == first);
            assert(t2[first] == t[first]);
            let stop = frame_stop(st, j);
            let was = j + 1 >= k && st.stack[j].state == StackFrameState::Key;
            lemma_items_agree(t, t2, first + 1, stop, dict, true, was);
            if j == k - 1 {
                assert(stop == m);
                assert(dict == in_dict(st));
                lemma_items_append(t2, first + 1, m, dict, true, was);
                if !dict {
                    lemma_items_flags(t2, first + 1, m + 1, true, !was, true, was);
                }
            } else {
                assert(frame_stop(next, j) == stop);
            }
        }
    }
}

/// An open container begins before every container opened inside it.
pub proof fn lemma_frames_ascend(st: ScanState, i: int, j: int)
    requires
        forall|x: int| 0 <= x < st.stack.len() ==> #[trigger] frame_ok(st, x),
        0 <= i < j < st.stack.len(),
    ensures
        st.stack[i].token < st.stack[j].token,
    decreases j - i,
{
    assert(frame_ok(st, i));
    if i + 1 < j {
        lemma_frames_ascend(st, i + 1, j);
    }
}

/// Closing the innermost container keeps the decoder's state in order, or
/// finishes the buffer's value.
pub proof fn lemma_close(buf: Seq<u8>, st: ScanState)
    requires
        scan_ok(buf, st),
        st.off < buf.len(),
        buf[st.off as int] == CLOSE,
        st.stack.len() > 0,
        !(in_dict(st) && st.stack.last().state == StackFrameState::Value),
    ensures
        after_close(st).stack.len() > 0 ==> scan_ok(buf, after_close(st)),
        after_close(st).stack.len() == 0 ==> describes(buf, finish(after_close(st))),
{
    let next = after_close(st);
    let t = st.tokens;
    let t2 = next.tokens;
    let m = t.len() as int;
    let k = st.stack.len() as int;
    let c = st.stack.last().token as int;
    assert(frame_ok(st, k - 1));
    let dict = t[c].kind == TokenType::Dict;
    assert(dict == in_dict(st));
    assert(t2.len() == m + 1);
    assert(t2[m].kind == TokenType::End);
    assert(t2[c].next_item == m + 1 - c);
    assert(t2[c].kind == t[c].kind);
    lemma_items_agree(t, t2, c + 1, m, dict, true, st.stack[k - 1].state == StackFrameState::Key);
    if !dict {
        lemma_items_flags(
            t2,
            c + 1,
            m,
            true,
            st.stack[k - 1].state == StackFrameState::Key,
            true,
            true,
        );
    }
    assert(node_ok(t2, c));
    assert forall|i: int| 0 <= i < t2.len() implies #[trigger] token_ok(buf, next, i) by {
        if i < m {
            assert(token_ok(buf, st, i));
            assert(next_offset(next, i) == next_offset(st, i));
            assert(t2[i].offset == t[i].offset);
            assert(t2[i].kind == t[i].kind);
            assert(t2[i].header == t[i].header);
            if i != c {
                assert(t2[i] == t[i]);
            }
        }
    }
    if k == 1 {
        let done = finish(next);
        assert(c == 0);
        crate::layout::lemma_node_agree(t2, done, 0);
        assert forall|i: int| 0 <= i < done.len() - 1 implies #[trigger] span_at(buf, done, i) by {
            assert(token_ok(buf, next, i));
        }
    } else {
        assert forall|j: int| 0 <= j < next.stack.len() implies #[trigger] frame_ok(next, j) by {
            assert(frame_ok(st, j));
            let first = st.stack[j].token as int;
            let d = t[first].kind == TokenType::Dict;
            assert(next.stack[j] == st.stack[j]);
            lemma_frames_ascend(st, j, k - 1);
            assert(t2[first] == t[first]);
            let stop = frame_stop(st, j);
            if j + 1 < k - 1 {
                lemma_frames_ascend(st, j + 1, k - 1);
            }
            lemma_items_agree(t, t2, first + 1, stop, d, true, false);
            if j == k - 2 {
                assert(stop == c);
                lemma_items_append(t2, first + 1, c, d, true, false);
                if !d {
                    lemma_items_flags(
                        t2,
                        first + 1,
                        m + 1,
                        true,
                        true,
                        true,
                        st.stack[j].state == StackFrameState::Key,
                    );
                }
            } else {
                assert(frame_stop(next, j) == stop);
            }
        }
    }
}

/// A step from a state that is in order leads to one that is in order, or
/// to the token array of the buffer's value.
pub proof fn lemma_step(buf: Seq<u8>, st: ScanState)
    requires
        scan_ok(buf, st),
        st.off < buf.len(),
    ensures
        step(buf, st) matches Step::Next(next) ==> {
            &&& next.off > st.off
            &&& next.stack.len() > 0 ==> scan_ok(buf, next)
            &&& next.stack.len() == 0 ==> describes(buf, finish(next))
        },
{
    let byte = buf[st.off as int];
    let rest = buf.skip(st.off as int);
    let key = in_dict(st) && st.stack.last().state == StackFrameState::Key;
    if key && !is_digit(byte) && byte != CLOSE {
    } else if byte == DICT_OPEN {
        lemma_open(buf, st, TokenType::Dict);
    } else if byte == LIST_OPEN {
        lemma_open(buf, st, TokenType::List);
    } else if byte == INT_OPEN {
        lemma_first_index(rest, CLOSE);
        if let Some(idx) = first_index(rest, CLOSE) {
            assert(rest[0] == byte);
            assert(rest[idx as int] == buf[st.off as int + idx]);
            if check_integer_spec(buf.subrange(st.off as int + 1, st.off as int + idx)).is_ok() {
                let tok = TokenView {
                    offset: st.off,
                    kind: TokenType::Int,
                    next_item: 1,
                    header: 1,
                };
                lemma_leaf(buf, st, tok, st.off + idx + 1);
            }
        }
    } else if byte == CLOSE {
        if st.stack.len() > 0 && !(in_dict(st) && st.stack.last().state
            == StackFrameState::Value) {
            lemma_close(buf, st);
        }
    } else {
        lemma_first_index(rest, COLON);
        if let Some(idx) = first_index(rest, COLON) {
            let literal = buf.subrange(st.off as int, st.off as int + idx);
            assert(rest[idx as int] == buf[st.off as int + idx]);
            if check_integer_spec(literal).is_ok() {
                if let Ok(length) = decode_int_spec(literal) {
                    if 0 <= length <= usize::MAX && length <= buf.len() - (st.off + idx + 1) && idx
                        + 1 <= MAX_HEADER {
                        let tok = TokenView {
                            offset: st.off,
                            kind: TokenType::Str,
                            next_item: 1,
                            header: idx + 1,
                        };
                        let next_off = (st.off + idx + 1 + length) as nat;
                        assert(literal[0] == byte);
                        lemma_leaf(buf, st, tok, next_off);
                    }
                }
            }
        }
    }
}

/// Whatever the decoder ends with from a state that is in order is the
/// token array of the buffer's value.
pub proof fn lemma_run(buf: Seq<u8>, st: ScanState)
    requires
        scan_ok(buf, st),
    ensures
        run(buf, st) matches Ok(t) ==> describes(buf, t),
    decreases buf.len() - st.off,
{
    if st.off < buf.len() {
        lemma_step(buf, st);
        if let Step::Next(next) = step(buf, st) {
            if next.stack.len() > 0 {
                lemma_run(buf, next);
            }
        }
    }
}

/// The tokens that decoding gives describe the value that the buffer
/// begins with: the last token is the end marker, every container records
/// the distance to behind its closing token, a dictionary holds keys and
/// values in turn and its keys are strings, and the offsets rise from token
/// to token.
pub proof fn lemma_decode_describes(buf: Seq<u8>)
    ensures
        decode_spec(buf) matches Ok(t) ==> describes(buf, t),
{
    if 0 < buf.len() <= MAX_OFFSET {
        lemma_run(buf, initial_state());
    }
}

/// The structural check never names a nesting depth.
pub proof fn lemma_check_errors(s: Seq<u8>)
    ensures
        check_integer_spec(s) matches Err(e) ==> e == BdecodeError::UnexpectedEof || e
            == BdecodeError::ExpectedDigit || e == BdecodeError::LeadingZero || e
            == BdecodeError::Overflow,
        decode_int_spec(s) matches Err(e) ==> e == BdecodeError::UnexpectedEof || e
            == BdecodeError::ExpectedDigit || e == BdecodeError::NegativeZero || e
            == BdecodeError::Overflow,
{
}

/// The decoder nests containers as deeply as the buffer asks for: from no
/// state does it end with `DepthExceeded`.
pub proof fn lemma_run_depth(buf: Seq<u8>, st: ScanState)
    ensures
        run(buf, st) != Err::<Seq<TokenView>, BdecodeError>(BdecodeError::DepthExceeded),
    decreases buf.len() - st.off,
{
    if st.off < buf.len() {
        lemma_step_advances(buf, st);
        let rest = buf.skip(st.off as int);
        if let Some(idx) = first_index(rest, CLOSE) {
            lemma_check_errors(buf.subrange(st.off as int + 1, st.off as int + idx));
        }
        if let Some(idx) = first_index(rest, COLON) {
            lemma_check_errors(buf.subrange(st.off as int, st.off as int + idx));
        }
        if let Step::Next(next) = step(buf, st) {
            if next.stack.len() > 0 {
                if next.off <= buf.len() {
                    lemma_run_depth(buf, next);
                }
            }
        }
    }
}

/// No buffer is refused for the depth of its nesting.
pub proof fn lemma_depth_is_unbounded(buf: Seq<u8>)
    ensures
        decode_spec(buf) != Err::<Seq<TokenView>, BdecodeError>(BdecodeError::DepthExceeded),
{
    lemma_run_depth(buf, initial_state());
}

} // verus!
