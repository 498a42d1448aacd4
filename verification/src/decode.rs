use vstd::prelude::*;
use crate::bytes::{CLOSE, COLON, DICT_OPEN, INT_OPEN, LIST_OPEN};
use vstd::slice::slice_subrange;
use crate::complete::{holds_value, lemma_refused_holds_none, within_limits};
use crate::error::BdecodeError;
use crate::layout::describes;
use crate::node::BencodeAny;
use crate::parse_int::{check_integer, decode_int, is_numeric};
use crate::progress::{frame_ok, lemma_decode_describes, lemma_first_index, lemma_step, scan_ok};
use crate::scan::{
    after_close,
    after_leaf,
    after_open,
    decode_spec,
    finish,
    in_dict,
    initial_state,
    run,
    step,
    step_close,
    step_int,
    step_str,
    ScanState,
    Step,
};
use crate::stack_frame::{toggled, StackFrame, StackFrameState, StackFrameView};
use crate::token::{Token, TokenType, TokenView, MAX_HEADER, MAX_OFFSET};
use crate::tree::{kind_of_first_byte, lemma_root_kind};
use crate::value::{value_at, Value};

verus! {

/// `memchr::memchr` returns the index of the first byte of `haystack` that
/// equals `needle`, or `None` where no byte does.
pub assume_specification[ memchr::memchr ](needle: u8, haystack: &[u8]) -> (r: Option<usize>)
    ensures
        match r {
            Some(i) => i < haystack@.len() && haystack@[i as int] == needle && forall|j: int|
                0 <= j < i ==> haystack@[j] != needle,
            None => forall|j: int| 0 <= j < haystack@.len() ==> haystack@[j] != needle,
        },
;

/// The tokens of an array as plain values.
pub open spec fn token_views(s: Seq<Token>) -> Seq<TokenView> {
    Seq::new(s.len(), |i: int| s[i]@)
}

/// The frames of a stack as plain values.
pub open spec fn frame_views(s: Seq<StackFrame>) -> Seq<StackFrameView> {
    Seq::new(s.len(), |i: int| s[i]@)
}

/// The decoder's state as plain values.
pub open spec fn scan_state(off: usize, stack: Seq<StackFrame>, tokens: Seq<Token>) -> ScanState {
    ScanState { off: off as nat, stack: frame_views(stack), tokens: token_views(tokens) }
}

/// A decoded buffer: the bytes, which are borrowed, and the tokens that
/// describe the value they begin with. Handles on the value borrow from it.
pub struct Bencode<'a> {
    buf: &'a [u8],
    tokens: Vec<Token>,
}

impl<'a> View for Bencode<'a> {
    type V = Value;

    /// The value that the buffer begins with, as a tree.
    open spec fn view(&self) -> Value {
        value_at(self.buffer(), self.tokens(), 0)
    }
}

impl<'a> Bencode<'a> {
    /// The tokens describe the value that the buffer begins with.
    #[verifier::type_invariant]
    closed spec fn well_formed(&self) -> bool {
        describes(self.buf@, token_views(self.tokens@))
    }

    /// The bytes that were decoded.
    pub closed spec fn buffer(&self) -> Seq<u8> {
        self.buf@
    }

    /// The tokens that decoding gave.
    pub closed spec fn tokens(&self) -> Seq<TokenView> {
        token_views(self.tokens@)
    }

    /// Returns a handle on the value that the buffer begins with.
    pub fn get_root<'t>(&'t self) -> (r: BencodeAny<'a, 't>)
        ensures
            r@ == self@,
            r.buffer() == self.buffer(),
            r.tokens() == self.tokens(),
            r.index() == 0,
    {
        proof {
            use_type_invariant(self);
        }
        BencodeAny::at(self.buf, self.tokens.as_slice(), 0)
    }
}

impl<'a> Clone for Bencode<'a> {
    /// A second owner of the same tokens over the same buffer.
    fn clone(&self) -> (r: Self)
        ensures
            r@ == self@,
            r.buffer() == self.buffer(),
            r.tokens() == self.tokens(),
    {
        proof {
            use_type_invariant(self);
        }
        let tokens = self.tokens.clone();
        assert(token_views(tokens@) =~= token_views(self.tokens@));
        Bencode { buf: self.buf, tokens }
    }
}

/// Turns the innermost open container, if it is a dictionary, from
/// expecting a key to expecting a value, or back.
fn toggle_parent(stack: &mut Vec<StackFrame>, parent_is_dict: bool)
    requires
        parent_is_dict ==> old(stack).len() > 0,
    ensures
        final(stack).len() == old(stack).len(),
        !parent_is_dict ==> final(stack)@ == old(stack)@,
        parent_is_dict ==> frame_views(final(stack)@) == frame_views(old(stack)@).update(
            old(stack).len() - 1,
            StackFrameView {
                token: old(stack)@.last()@.token,
                state: toggled(old(stack)@.last()@.state),
            },
        ),
{
    if parent_is_dict {
        let last: usize = stack.len() - 1;
        let mut frame = stack[last];
        frame.toggle_state();
        stack.set(last, frame);
        assert(frame_views(stack@) =~= frame_views(old(stack)@).update(
            old(stack).len() - 1,
            StackFrameView {
                token: old(stack)@.last()@.token,
                state: toggled(old(stack)@.last()@.state),
            },
        ));
    }
}

/// Whether the innermost open container is a dictionary, and what it
/// expects next.
fn parent_state(stack: &Vec<StackFrame>, tokens: &Vec<Token>) -> (r: (bool, StackFrameState))
    requires
        stack.len() > 0 ==> stack@.last()@.token < tokens.len(),
    ensures
        r.0 == in_dict(scan_state(0, stack@, tokens@)),
        stack.len() > 0 ==> r.1 == stack@.last()@.state,
{
    let sp = stack.len();
    if sp > 0 {
        let frame = stack[sp - 1];
        (tokens[frame.token()].token_type() == TokenType::Dict, frame.state())
    } else {
        (false, StackFrameState::Key)
    }
}

/// Opens a container of the given kind at byte `off`.
fn open_container(
    off: usize,
    kind: TokenType,
    parent_is_dict: bool,
    stack: &mut Vec<StackFrame>,
    tokens: &mut Vec<Token>,
)
    requires
        off < MAX_OFFSET,
        old(tokens).len() <= MAX_OFFSET,
        parent_is_dict == in_dict(scan_state(off, old(stack)@, old(tokens)@)),
    ensures
        scan_state((off + 1) as usize, final(stack)@, final(tokens)@) == after_open(
            scan_state(off, old(stack)@, old(tokens)@),
            kind,
        ),
{
    let ghost st = scan_state(off, stack@, tokens@);
    // the distance to the next sibling is filled in when the container is
    // closed
    let new_token = Token::new(off, kind, 0, 0).unwrap();
    toggle_parent(stack, parent_is_dict);
    stack.push(StackFrame::new(tokens.len() as u32, StackFrameState::Key));
    tokens.push(new_token);
    proof {
        let next = after_open(st, kind);
        assert(frame_views(stack@) =~= next.stack);
        assert(token_views(tokens@) =~= next.tokens);
    }
}

/// Adds the token of a string or an integer.
fn push_leaf(
    new_token: Token,
    off: usize,
    next_off: usize,
    parent_is_dict: bool,
    stack: &mut Vec<StackFrame>,
    tokens: &mut Vec<Token>,
)
    requires
        parent_is_dict == in_dict(scan_state(off, old(stack)@, old(tokens)@)),
    ensures
        scan_state(next_off, final(stack)@, final(tokens)@) == after_leaf(
            scan_state(off, old(stack)@, old(tokens)@),
            new_token@,
            next_off as nat,
        ),
{
    let ghost st = scan_state(off, stack@, tokens@);
    toggle_parent(stack, parent_is_dict);
    tokens.push(new_token);
    proof {
        let next = after_leaf(st, new_token@, next_off as nat);
        assert(frame_views(stack@) =~= next.stack);
        assert(token_views(tokens@) =~= next.tokens);
    }
}

/// Reads the integer that begins at byte `off` and returns the byte behind
/// it.
fn read_int(
    buf: &[u8],
    off: usize,
    parent_is_dict: bool,
    stack: &mut Vec<StackFrame>,
    tokens: &mut Vec<Token>,
) -> (r: Result<usize, BdecodeError>)
    requires
        off < buf.len() <= MAX_OFFSET,
        buf@[off as int] == INT_OPEN,
        parent_is_dict == in_dict(scan_state(off, old(stack)@, old(tokens)@)),
    ensures
        match r {
            Ok(next_off) => step_int(buf@, scan_state(off, old(stack)@, old(tokens)@))
                == Step::Next(scan_state(next_off, final(stack)@, final(tokens)@)),
            Err(e) => step_int(buf@, scan_state(off, old(stack)@, old(tokens)@)) == Step::Fail(e)
                && final(stack)@ == old(stack)@ && final(tokens)@ == old(tokens)@,
        },
{
    let rest = slice_subrange(buf, off, buf.len());
    proof {
        assert(rest@ =~= buf@.skip(off as int));
        lemma_first_index(rest@, CLOSE);
    }
    let end_index = match memchr::memchr(CLOSE, rest) {
        Some(idx) => off + idx,
        None => {
            return Err(BdecodeError::UnexpectedEof);
        },
    };
    assert(rest@[0] == buf@[off as int]);
    // the literal begins behind the `i`
    let digits = slice_subrange(buf, off + 1, end_index);
    match check_integer(digits) {
        Ok(()) => {},
        Err(e) => {
            return Err(e);
        },
    }
    let new_token = Token::new(off, TokenType::Int, 1, 1).unwrap();
    push_leaf(new_token, off, end_index + 1, parent_is_dict, stack, tokens);
    Ok(end_index + 1)
}

/// Reads the string that begins at byte `off` and returns the byte behind
/// it.
fn read_str(
    buf: &[u8],
    off: usize,
    parent_is_dict: bool,
    stack: &mut Vec<StackFrame>,
    tokens: &mut Vec<Token>,
) -> (r: Result<usize, BdecodeError>)
    requires
        off < buf.len() <= MAX_OFFSET,
        parent_is_dict == in_dict(scan_state(off, old(stack)@, old(tokens)@)),
    ensures
        match r {
            Ok(next_off) => step_str(buf@, scan_state(off, old(stack)@, old(tokens)@))
                == Step::Next(scan_state(next_off, final(stack)@, final(tokens)@)),
            Err(e) => step_str(buf@, scan_state(off, old(stack)@, old(tokens)@)) == Step::Fail(e)
                && final(stack)@ == old(stack)@ && final(tokens)@ == old(tokens)@,
        },
{
    let rest = slice_subrange(buf, off, buf.len());
    proof {
        assert(rest@ =~= buf@.skip(off as int));
        lemma_first_index(rest@, COLON);
    }
    let colon_index = match memchr::memchr(COLON, rest) {
        Some(idx) => off + idx,
        None => {
            return Err(BdecodeError::ExpectedColon);
        },
    };
    let int_buf = slice_subrange(buf, off, colon_index);
    match check_integer(int_buf) {
        Ok(()) => {},
        Err(e) => {
            return Err(e);
        },
    }
    let length: i64 = match decode_int(int_buf) {
        Ok(length) => length,
        Err(e) => {
            return Err(e);
        },
    };
    if length < 0 || length as u64 > usize::MAX as u64 {
        return Err(BdecodeError::Overflow);
    }
    let string_length: usize = length as usize;
    let payload: usize = colon_index + 1;
    if string_length > buf.len() - payload {
        // the rest of the buffer is too short for a string of that length
        return Err(BdecodeError::UnexpectedEof);
    }
    let header_len: usize = payload - off;
    let new_token = match Token::new(off, TokenType::Str, 1, header_len) {
        Ok(token) => token,
        Err(e) => {
            return Err(e);
        },
    };
    push_leaf(new_token, off, payload + string_length, parent_is_dict, stack, tokens);
    Ok(payload + string_length)
}

/// Closes the innermost open container at byte `off`: adds the closing
/// token and gives the opening token the distance to the token behind it,
/// counted from itself.
fn close_container(
    off: usize,
    parent_is_dict: bool,
    expecting: StackFrameState,
    stack: &mut Vec<StackFrame>,
    tokens: &mut Vec<Token>,
) -> (r: Result<(), BdecodeError>)
    requires
        off < MAX_OFFSET,
        old(tokens).len() < MAX_OFFSET,
        parent_is_dict == in_dict(scan_state(off, old(stack)@, old(tokens)@)),
        old(stack).len() > 0 ==> old(stack)@.last()@.token < old(tokens).len() && expecting == old(
            stack,
        )@.last()@.state,
    ensures
        match r {
            Ok(()) => step_close(scan_state(off, old(stack)@, old(tokens)@)) == Step::Next(
                scan_state((off + 1) as usize, final(stack)@, final(tokens)@),
            ),
            Err(e) => step_close(scan_state(off, old(stack)@, old(tokens)@)) == Step::Fail(e)
                && final(stack)@ == old(stack)@ && final(tokens)@ == old(tokens)@,
        },
{
    let ghost st = scan_state(off, stack@, tokens@);
    let sp = stack.len();
    if sp == 0 {
        return Err(BdecodeError::UnexpectedEof);
    }
    if parent_is_dict && expecting == StackFrameState::Value {
        // a key has been read and the dictionary ends without its value
        return Err(BdecodeError::ExpectedValue);
    }
    let end_token = Token::new(off, TokenType::End, 1, 0).unwrap();
    let top = stack[sp - 1].token();
    let next_item = tokens.len() + 1 - top;
    let mut opening = tokens[top];
    opening.set_next_item(next_item).unwrap();
    tokens.push(end_token);
    tokens.set(top, opening);
    stack.pop();
    proof {
        let next = after_close(st);
        assert(frame_views(stack@) =~= next.stack);
        assert(token_views(tokens@) =~= next.tokens);
    }
    Ok(())
}

/// Reads one value, or one closing byte, at byte `off`, and returns the
/// byte behind it.
fn scan_step(buf: &[u8], off: usize, stack: &mut Vec<StackFrame>, tokens: &mut Vec<Token>) -> (r:
    Result<usize, BdecodeError>)
    requires
        off < buf.len() <= MAX_OFFSET,
        old(tokens).len() <= off,
        old(stack).len() > 0 ==> old(stack)@.last()@.token < old(tokens).len(),
    ensures
        match r {
            Ok(next_off) => step(buf@, scan_state(off, old(stack)@, old(tokens)@)) == Step::Next(
                scan_state(next_off, final(stack)@, final(tokens)@),
            ),
            Err(e) => step(buf@, scan_state(off, old(stack)@, old(tokens)@)) == Step::Fail(e),
        },
{
    let byte = buf[off];
    let (parent_is_dict, expecting) = parent_state(stack, tokens);
    if parent_is_dict && expecting == StackFrameState::Key && !is_numeric(byte) && byte != CLOSE {
        // a dictionary's key has to be a string
        return Err(BdecodeError::ExpectedDigit);
    }
    if byte == DICT_OPEN {
        open_container(off, TokenType::Dict, parent_is_dict, stack, tokens);
        Ok(off + 1)
    } else if byte == LIST_OPEN {
        open_container(off, TokenType::List, parent_is_dict, stack, tokens);
        Ok(off + 1)
    } else if byte == INT_OPEN {
        read_int(buf, off, parent_is_dict, stack, tokens)
    } else if byte == CLOSE {
        match close_container(off, parent_is_dict, expecting, stack, tokens) {
            Ok(()) => Ok(off + 1),
            Err(e) => Err(e),
        }
    } else {
        read_str(buf, off, parent_is_dict, stack, tokens)
    }
}

/// What holds of the decoder's state between two steps. The loop of the
/// decoder carries it along without looking into it.
#[verifier::opaque]
spec fn in_order(buf: Seq<u8>, st: ScanState) -> bool {
    scan_ok(buf, st)
}

/// The state before anything is read is in order.
proof fn lemma_in_order_initial(buf: Seq<u8>)
    requires
        0 < buf.len() <= MAX_OFFSET,
    ensures
        in_order(buf, initial_state()),
        run(buf, initial_state()) == decode_spec(buf),
{
    reveal(in_order);
}

/// A state in order has no more tokens than bytes read, and its innermost
/// open container is among the tokens.
proof fn lemma_in_order_bounds(buf: Seq<u8>, st: ScanState)
    requires
        in_order(buf, st),
    ensures
        st.tokens.len() <= st.off <= buf.len(),
        st.stack.len() > 0 ==> st.stack.last().token < st.tokens.len(),
{
    reveal(in_order);
    if st.stack.len() > 0 {
        assert(frame_ok(st, st.stack.len() - 1));
    }
}

/// A step from a state in order ends the run with the tokens read, or
/// leads to a state in order from which the run ends as it does from this
/// one.
proof fn lemma_in_order_next(buf: Seq<u8>, st: ScanState, next: ScanState)
    requires
        in_order(buf, st),
        st.off < buf.len(),
        step(buf, st) == Step::Next(next),
    ensures
        st.off < next.off <= buf.len(),
        next.stack.len() == 0 ==> run(buf, st) == Ok::<Seq<TokenView>, BdecodeError>(finish(next)),
        next.stack.len() > 0 ==> in_order(buf, next) && run(buf, st) == run(buf, next),
        next.stack.len() > 0 && next.off >= buf.len() ==> run(buf, st) == Err::<
            Seq<TokenView>,
            BdecodeError,
        >(BdecodeError::UnexpectedEof),
{
    reveal(in_order);
    lemma_step(buf, st);
    if next.stack.len() == 0 {
        assert(finish(next).last().offset == next.off);
    }
}

/// A step that fails ends the run with its error.
proof fn lemma_in_order_fail(buf: Seq<u8>, st: ScanState, e: BdecodeError)
    requires
        st.off < buf.len(),
        step(buf, st) == Step::Fail(e),
    ensures
        run(buf, st) == Err::<Seq<TokenView>, BdecodeError>(e),
{
}

/// The tokens of an array keep within what they can record.
proof fn lemma_tokens_within_limits(buf: Seq<u8>, tokens: Seq<Token>)
    requires
        buf.len() <= MAX_OFFSET,
    ensures
        within_limits(buf, token_views(tokens)),
{
    assert forall|i: int| 0 <= i < tokens.len() implies (#[trigger] token_views(tokens)[i]).header
        <= MAX_HEADER by {
        tokens[i].lemma_bounds();
    }
}

/// Decodes a buffer: validates the value that it begins with and returns
/// its tokens, with the buffer, as a `Bencode`. Bytes behind the value are
/// not looked at. Containers may be nested as deeply as the buffer is long:
/// `DepthExceeded` is never returned.
pub fn bdecode<'a>(buf: &'a [u8]) -> (r: Result<Bencode<'a>, BdecodeError>)
    ensures
        match r {
            Ok(b) => {
                &&& b.buffer() == buf@
                &&& decode_spec(buf@) == Ok::<Seq<TokenView>, BdecodeError>(b.tokens())
                &&& describes(buf@, b.tokens())
                &&& within_limits(buf@, b.tokens())
                &&& kind_of_first_byte(buf@[0]) == Some(b.tokens()[0].kind)
            },
            Err(e) => decode_spec(buf@) == Err::<Seq<TokenView>, BdecodeError>(e),
        },
        r.is_ok() <==> holds_value(buf@),
{
    if buf.len() > MAX_OFFSET {
        proof {
            lemma_refused_holds_none(buf@);
        }
        return Err(BdecodeError::LimitExceeded);
    }
    if buf.len() == 0 {
        proof {
            lemma_refused_holds_none(buf@);
        }
        return Err(BdecodeError::UnexpectedEof);
    }
    let mut stack: Vec<StackFrame> = Vec::with_capacity(4);
    let mut tokens: Vec<Token> = Vec::with_capacity(16);
    let mut off: usize = 0;
    proof {
        assert(frame_views(stack@) =~= initial_state().stack);
        assert(token_views(tokens@) =~= initial_state().tokens);
        lemma_in_order_initial(buf@);
    }
    loop
        invariant
            off < buf.len() <= MAX_OFFSET,
            in_order(buf@, scan_state(off, stack@, tokens@)),
            run(buf@, scan_state(off, stack@, tokens@)) == decode_spec(buf@),
        decreases buf.len() - off,
    {
        let ghost st = scan_state(off, stack@, tokens@);
        proof {
            lemma_in_order_bounds(buf@, st);
        }
        off =
        match scan_step(buf, off, &mut stack, &mut tokens) {
            Ok(next_off) => next_off,
            Err(e) => {
                proof {
                    lemma_in_order_fail(buf@, st, e);
                    lemma_refused_holds_none(buf@);
                }
                return Err(e);
            },
        };
        proof {
            lemma_in_order_next(buf@, st, scan_state(off, stack@, tokens@));
        }
        if stack.len() == 0 {
            // the value that the buffer begins with is complete
            let last_token = Token::new(off, TokenType::End, 0, 0).unwrap();
            let ghost before = scan_state(off, stack@, tokens@);
            tokens.push(last_token);
            proof {
                assert(token_views(tokens@) =~= finish(before));
                lemma_decode_describes(buf@);
                lemma_root_kind(buf@, token_views(tokens@));
                lemma_tokens_within_limits(buf@, tokens@);
            }
            return Ok(Bencode { buf, tokens });
        }
        if off >= buf.len() {
            proof {
                lemma_refused_holds_none(buf@);
            }
            return Err(BdecodeError::UnexpectedEof);
        }
    }
}

} // verus!
