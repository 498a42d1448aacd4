use vstd::prelude::*;
use crate::bytes::{CLOSE, COLON, DICT_OPEN, INT_OPEN, LIST_OPEN};
use crate::error::BdecodeError;
use crate::parse_int::{check_integer_spec, decode_int_spec, is_digit};
use crate::stack_frame::{toggled, StackFrameState, StackFrameView};
use crate::token::{TokenType, TokenView, MAX_HEADER, MAX_OFFSET};

verus! {

/// The state of the decoder between two values: the byte it has come to,
/// the containers that are open, outermost first, and the tokens so far.
pub struct ScanState {
    /// The next byte to read.
    pub off: nat,
    /// The open containers.
    pub stack: Seq<StackFrameView>,
    /// The tokens of what has been read.
    pub tokens: Seq<TokenView>,
}

/// What reading one value, or one closing byte, leads to.
pub enum Step {
    /// The decoder goes on from this state.
    Next(ScanState),
    /// The buffer is refused.
    Fail(BdecodeError),
}

/// How many bytes of `s` come before the first `needle`, if there is one.
pub open spec fn first_index(s: Seq<u8>, needle: u8) -> Option<nat>
    decreases s.len(),
{
    if s.len() == 0 {
        None
    } else if s[0] == needle {
        Some(0)
    } else {
        match first_index(s.skip(1), needle) {
            Some(i) => Some(i + 1),
            None => None,
        }
    }
}

/// The state before anything is read.
pub open spec fn initial_state() -> ScanState {
    ScanState { off: 0, stack: Seq::empty(), tokens: Seq::empty() }
}

/// Whether the innermost open container is a dictionary.
pub open spec fn in_dict(st: ScanState) -> bool {
    st.stack.len() > 0 && st.tokens[st.stack.last().token as int].kind == TokenType::Dict
}

/// The open containers once one more item of the innermost has begun: a
/// dictionary then expects the other of key and value.
pub open spec fn toggle_top(st: ScanState) -> Seq<StackFrameView> {
    if in_dict(st) {
        st.stack.update(
            st.stack.len() - 1,
            StackFrameView { token: st.stack.last().token, state: toggled(st.stack.last().state) },
        )
    } else {
        st.stack
    }
}

/// The state after a string or an integer with token `tok` that ends before
/// byte `next_off`.
pub open spec fn after_leaf(st: ScanState, tok: TokenView, next_off: nat) -> ScanState {
    ScanState { off: next_off, stack: toggle_top(st), tokens: st.tokens.push(tok) }
}

/// The state after the byte that opens a container of the given kind. The
/// distance to its next sibling is not known yet and recorded as 0.
pub open spec fn after_open(st: ScanState, kind: TokenType) -> ScanState {
    ScanState {
        off: st.off + 1,
        stack: toggle_top(st).push(
            StackFrameView { token: st.tokens.len(), state: StackFrameState::Key },
        ),
        tokens: st.tokens.push(TokenView { offset: st.off, kind: kind, next_item: 0, header: 0 }),
    }
}

/// The state after the byte that closes the innermost container: a closing
/// token is added, and the opening token is given the number of tokens from
/// itself to behind the closing one.
pub open spec fn after_close(st: ScanState) -> ScanState {
    let top = st.stack.last().token as int;
    let pushed = st.tokens.push(
        TokenView { offset: st.off, kind: TokenType::End, next_item: 1, header: 0 },
    );
    ScanState {
        off: st.off + 1,
        stack: st.stack.drop_last(),
        tokens: pushed.update(
            top,
            TokenView { next_item: (pushed.len() - top) as nat, ..pushed[top] },
        ),
    }
}

/// Reading an integer at `st.off`: it runs to the first `e`, and what lies
/// between has to pass the structural check.
pub open spec fn step_int(buf: Seq<u8>, st: ScanState) -> Step {
    match first_index(buf.skip(st.off as int), CLOSE) {
        None => Step::Fail(BdecodeError::UnexpectedEof),
        Some(idx) => match check_integer_spec(
            buf.subrange(st.off as int + 1, st.off as int + idx),
        ) {
            Err(e) => Step::Fail(e),
            Ok(_) => Step::Next(
                after_leaf(
                    st,
                    TokenView { offset: st.off, kind: TokenType::Int, next_item: 1, header: 1 },
                    st.off + idx + 1,
                ),
            ),
        },
    }
}

/// Reading a string at `st.off`: its length runs to the first colon, has to
/// pass the structural check and to be read as a number that is not
/// negative, and as many bytes have to follow the colon.
pub open spec fn step_str(buf: Seq<u8>, st: ScanState) -> Step {
    match first_index(buf.skip(st.off as int), COLON) {
        None => Step::Fail(BdecodeError::ExpectedColon),
        Some(idx) => {
            let literal = buf.subrange(st.off as int, st.off as int + idx);
            match check_integer_spec(literal) {
                Err(e) => Step::Fail(e),
                Ok(_) => match decode_int_spec(literal) {
                    Err(e) => Step::Fail(e),
                    Ok(length) => if length < 0 || length > usize::MAX {
                        Step::Fail(BdecodeError::Overflow)
                    } else if length > buf.len() - (st.off + idx + 1) {
                        Step::Fail(BdecodeError::UnexpectedEof)
                    } else if idx + 1 > MAX_HEADER {
                        Step::Fail(BdecodeError::LimitExceeded)
                    } else {
                        Step::Next(
                            after_leaf(
                                st,
                                TokenView {
                                    offset: st.off,
                                    kind: TokenType::Str,
                                    next_item: 1,
                                    header: idx + 1,
                                },
                                (st.off + idx + 1 + length) as nat,
                            ),
                        )
                    },
                },
            }
        },
    }
}

/// Reading the byte that closes a container: refused where nothing is
/// open, and where a dictionary has a key without a value.
pub open spec fn step_close(st: ScanState) -> Step {
    if st.stack.len() == 0 {
        Step::Fail(BdecodeError::UnexpectedEof)
    } else if in_dict(st) && st.stack.last().state == StackFrameState::Value {
        Step::Fail(BdecodeError::ExpectedValue)
    } else {
        Step::Next(after_close(st))
    }
}

/// One step of the decoder at byte `st.off` of `buf`. Where a dictionary
/// expects a key, only a digit or the closing byte is accepted; then the
/// byte decides what is read.
pub open spec fn step(buf: Seq<u8>, st: ScanState) -> Step {
    let byte = buf[st.off as int];
    if in_dict(st) && st.stack.last().state == StackFrameState::Key && !is_digit(byte) && byte
        != CLOSE {
        Step::Fail(BdecodeError::ExpectedDigit)
    } else if byte == DICT_OPEN {
        Step::Next(after_open(st, TokenType::Dict))
    } else if byte == LIST_OPEN {
        Step::Next(after_open(st, TokenType::List))
    } else if byte == INT_OPEN {
        step_int(buf, st)
    } else if byte == CLOSE {
        step_close(st)
    } else {
        step_str(buf, st)
    }
}

/// The tokens of a finished value: those read, and one that marks the byte
/// behind the value.
pub open spec fn finish(st: ScanState) -> Seq<TokenView> {
    st.tokens.push(TokenView { offset: st.off, kind: TokenType::End, next_item: 0, header: 0 })
}

/// The decoder run from state `st` to its end: it stops with the tokens as
/// soon as no container is open, and refuses a buffer that ends before.
pub open spec fn run(buf: Seq<u8>, st: ScanState) -> Result<Seq<TokenView>, BdecodeError>
    decreases (if st.off < buf.len() { buf.len() - st.off } else { 0 }),
    via run_decreases
{
    if st.off >= buf.len() {
        Err(BdecodeError::UnexpectedEof)
    } else {
        match step(buf, st) {
            Step::Fail(e) => Err(e),
            Step::Next(next) => if next.stack.len() == 0 {
                Ok(finish(next))
            } else {
                run(buf, next)
            },
        }
    }
}

/// The run ends: every step leaves fewer bytes to read.
#[via_fn]
proof fn run_decreases(buf: Seq<u8>, st: ScanState) {
    lemma_step_advances(buf, st);
}

/// Every step takes the decoder at least one byte further.
pub proof fn lemma_step_advances(buf: Seq<u8>, st: ScanState)
    ensures
        step(buf, st) is Next ==> step(buf, st)->Next_0.off > st.off,
{
}

/// What decoding `buf` gives: the token array of the value that it begins
/// with, or the reason why there is none. A buffer longer than a token can
/// address is `LimitExceeded`, an empty one `UnexpectedEof`. Bytes behind
/// the value are not read.
pub open spec fn decode_spec(buf: Seq<u8>) -> Result<Seq<TokenView>, BdecodeError> {
    if buf.len() > MAX_OFFSET {
        Err(BdecodeError::LimitExceeded)
    } else if buf.len() == 0 {
        Err(BdecodeError::UnexpectedEof)
    } else {
        run(buf, initial_state())
    }
}

} // verus!
