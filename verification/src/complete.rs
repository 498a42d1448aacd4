use vstd::prelude::*;
use crate::bytes::{CLOSE, COLON};
use crate::error::BdecodeError;
use crate::layout::{
    describes,
    items_ok,
    lemma_items_agree,
    lemma_items_split,
    node_ok,
    span_at,
};
use crate::parse_int::is_digit;
use crate::progress::{frame_ok, lemma_first_index, lemma_frames_ascend, lemma_step, scan_ok};
use crate::roundtrip::lemma_checked_literal_has_no_e;
use crate::scan::{
    after_close,
    after_leaf,
    after_open,
    decode_spec,
    finish,
    first_index,
    in_dict,
    initial_state,
    run,
    step,
    ScanState,
    Step,
};
use crate::stack_frame::StackFrameState;
use crate::token::{TokenType, TokenView, MAX_HEADER, MAX_OFFSET};
use crate::tree::{is_node, lemma_string_header_digits};

verus! {

/// Whether a buffer and tokens are within what the packed tokens can
/// record: the buffer is no longer than the greatest offset, and no header
/// is longer than the greatest header.
pub open spec fn within_limits(buf: Seq<u8>, t: Seq<TokenView>) -> bool {
    &&& buf.len() <= MAX_OFFSET
    &&& forall|i: int| 0 <= i < t.len() ==> (#[trigger] t[i]).header <= MAX_HEADER
}

/// Whether the container whose token is at `i` is open in state `st`.
pub open spec fn on_stack(st: ScanState, i: int) -> bool {
    exists|j: int| 0 <= j < st.stack.len() && (#[trigger] st.stack[j]).token == i
}

/// Whether token `i` of the decoder's state is token `i` of `t`; for an
/// open container the distance to its next sibling may still be 0.
pub open spec fn token_follows(t: Seq<TokenView>, st: ScanState, i: int) -> bool {
    &&& st.tokens[i].offset == t[i].offset
    &&& st.tokens[i].kind == t[i].kind
    &&& st.tokens[i].header == t[i].header
    &&& (st.tokens[i].next_item == t[i].next_item || (st.tokens[i].next_item == 0 && on_stack(
        st,
        i,
    )))
}

/// Whether the open container `j` of the decoder's state is a container of
/// `t` that the decoder is still inside of.
pub open spec fn frame_follows(t: Seq<TokenView>, st: ScanState, j: int) -> bool {
    let c = st.stack[j].token as int;
    &&& c < st.tokens.len()
    &&& is_node(t, c)
    &&& (t[c].kind == TokenType::Dict || t[c].kind == TokenType::List)
    &&& st.tokens.len() < c + t[c].next_item
}

/// Whether the open container `j` ends before the open container `i`
/// around it does.
pub open spec fn frame_within(t: Seq<TokenView>, st: ScanState, i: int, j: int) -> bool {
    st.stack[j].token + t[st.stack[j].token as int].next_item < st.stack[i].token
        + t[st.stack[i].token as int].next_item
}

/// Whether the decoder's state `st` is what reading the tokens of `t` up to
/// where `st` stands leads to.
pub open spec fn follows(t: Seq<TokenView>, st: ScanState) -> bool {
    &&& st.tokens.len() + 1 < t.len()
    &&& st.off == t[st.tokens.len() as int].offset
    &&& forall|i: int| 0 <= i < st.tokens.len() ==> #[trigger] token_follows(t, st, i)
    &&& forall|j: int| 0 <= j < st.stack.len() ==> #[trigger] frame_follows(t, st, j)
    &&& forall|i: int, j: int|
        0 <= i < j < st.stack.len() ==> #[trigger] frame_within(t, st, i, j)
}

/// Where the decoder is inside a container of `t`, the tokens from where
/// it stands to the closing token of the container are a run of well-formed
/// items, and a dictionary expects a key there exactly where the decoder
/// does.
pub proof fn lemma_rest_of_container(buf: Seq<u8>, t: Seq<TokenView>, st: ScanState)
    requires
        scan_ok(buf, st),
        follows(t, st),
        st.stack.len() > 0,
    ensures
        ({
            let c = st.stack.last().token as int;
            let k = st.tokens.len() as int;
            &&& in_dict(st) == (t[c].kind == TokenType::Dict)
            &&& c < k <= c + t[c].next_item - 1 < t.len() - 1
            &&& t[c + t[c].next_item - 1].kind == TokenType::End
            &&& items_ok(
                t,
                k,
                c + t[c].next_item - 1,
                t[c].kind == TokenType::Dict,
                st.stack.last().state == StackFrameState::Key,
                true,
            )
        }),
{
    let top = st.stack.len() - 1;
    let c = st.stack[top].token as int;
    let k = st.tokens.len() as int;
    let dict = t[c].kind == TokenType::Dict;
    let key = st.stack[top].state == StackFrameState::Key;
    assert(frame_ok(st, top));
    assert(frame_follows(t, st, top));
    assert(token_follows(t, st, c));
    assert forall|x: int| c + 1 <= x < k implies st.tokens[x] == t[x] by {
        assert(token_follows(t, st, x));
        if on_stack(st, x) {
            let j = choose|j: int| 0 <= j < st.stack.len() && (#[trigger] st.stack[j]).token == x;
            if j < top {
                lemma_frames_ascend(st, j, top);
            }
        }
    }
    lemma_items_agree(st.tokens, t, c + 1, k, dict, true, key);
    lemma_items_split(t, c + 1, k, c + t[c].next_item - 1, dict, true, key, true);
}

/// What the token of `t` is that the decoder comes to next: the closing
/// token of the innermost open container, where a dictionary expects a key;
/// or a well-formed node within that container, a string where a
/// dictionary expects a key.
pub proof fn lemma_next_token(buf: Seq<u8>, t: Seq<TokenView>, st: ScanState)
    requires
        describes(buf, t),
        scan_ok(buf, st),
        follows(t, st),
    ensures
        ({
            let k = st.tokens.len() as int;
            let c = st.stack.last().token as int;
            &&& span_at(buf, t, k)
            &&& st.off < buf.len()
            &&& t[k].kind == TokenType::End ==> {
                &&& st.stack.len() > 0
                &&& k == c + t[c].next_item - 1
                &&& !(in_dict(st) && st.stack.last().state == StackFrameState::Value)
            }
            &&& t[k].kind != TokenType::End ==> {
                &&& is_node(t, k)
                &&& st.stack.len() > 0 ==> k + t[k].next_item <= c + t[c].next_item - 1
                &&& in_dict(st) && st.stack.last().state == StackFrameState::Key ==> t[k].kind
                    == TokenType::Str
            }
        }),
{
    let k = st.tokens.len() as int;
    assert(span_at(buf, t, k));
    if st.stack.len() > 0 {
        lemma_rest_of_container(buf, t, st);
        let c = st.stack.last().token as int;
        let stop = c + t[c].next_item - 1;
        if k < stop {
            assert(node_ok(t, k));
        }
    }
}

/// Whether the decoder's state `next` is what follows reading token
/// `st.tokens.len()` of `t`: a state that follows `t` in turn, or, where
/// nothing is open any more, the whole of `t`.
pub open spec fn follows_on(t: Seq<TokenView>, next: ScanState) -> bool {
    &&& next.stack.len() > 0 ==> follows(t, next)
    &&& next.stack.len() == 0 ==> finish(next) == t
}

/// Reading the token of a container that `t` holds next keeps the decoder
/// on `t`.
pub proof fn lemma_follow_open(buf: Seq<u8>, t: Seq<TokenView>, st: ScanState, kind: TokenType)
    requires
        describes(buf, t),
        scan_ok(buf, st),
        follows(t, st),
        kind == TokenType::Dict || kind == TokenType::List,
        t[st.tokens.len() as int].kind == kind,
    ensures
        follows_on(t, after_open(st, kind)),
{
    let next = after_open(st, kind);
    let k = st.tokens.len() as int;
    let depth = st.stack.len() as int;
    lemma_next_token(buf, t, st);
    assert(node_ok(t, k));
    assert(next.stack[depth].token == k);
    assert forall|j: int| 0 <= j < depth implies (#[trigger] next.stack[j]).token
        == st.stack[j].token by {}
    assert forall|i: int| 0 <= i < next.tokens.len() implies #[trigger] token_follows(
        t,
        next,
        i,
    ) by {
        if i < k {
            assert(token_follows(t, st, i));
            if on_stack(st, i) {
                let j = choose|j: int|
                    0 <= j < st.stack.len() && (#[trigger] st.stack[j]).token == i;
                assert(next.stack[j].token == i);
            }
        } else {
            assert(next.stack[depth].token == i);
        }
    }
    assert forall|j: int| 0 <= j < next.stack.len() implies #[trigger] frame_follows(
        t,
        next,
        j,
    ) by {
        if j < depth {
            assert(frame_follows(t, st, j));
            if j < depth - 1 {
                assert(frame_within(t, st, j, depth - 1));
            }
        }
    }
    assert forall|i: int, j: int| 0 <= i < j < next.stack.len() implies #[trigger] frame_within(
        t,
        next,
        i,
        j,
    ) by {
        if j < depth {
            assert(frame_within(t, st, i, j));
        } else {
            if i < depth - 1 {
                assert(frame_within(t, st, i, depth - 1));
            }
        }
    }
}

/// Reading the string or the integer that `t` holds next keeps the decoder
/// on `t`.
pub proof fn lemma_follow_leaf(buf: Seq<u8>, t: Seq<TokenView>, st: ScanState)
    requires
        describes(buf, t),
        scan_ok(buf, st),
        follows(t, st),
        st.stack.len() > 0 || st.tokens.len() == 0,
        t[st.tokens.len() as int].kind == TokenType::Str || t[st.tokens.len() as int].kind
            == TokenType::Int,
    ensures
        follows_on(
            t,
            after_leaf(st, t[st.tokens.len() as int], t[st.tokens.len() as int + 1].offset),
        ),
{
    let k = st.tokens.len() as int;
    let next = after_leaf(st, t[k], t[k + 1].offset);
    let depth = st.stack.len() as int;
    lemma_next_token(buf, t, st);
    assert(node_ok(t, k));
    if depth == 0 {
        assert(finish(next) =~= t);
    } else {
        assert forall|j: int| 0 <= j < depth implies (#[trigger] next.stack[j]).token
            == st.stack[j].token by {}
        assert forall|i: int| 0 <= i < next.tokens.len() implies #[trigger] token_follows(
            t,
            next,
            i,
        ) by {
            if i < k {
                assert(token_follows(t, st, i));
                if on_stack(st, i) {
                    let j = choose|j: int|
                        0 <= j < st.stack.len() && (#[trigger] st.stack[j]).token == i;
                    assert(next.stack[j].token == i);
                }
            }
        }
        assert forall|j: int| 0 <= j < next.stack.len() implies #[trigger] frame_follows(
            t,
            next,
            j,
        ) by {
            assert(frame_follows(t, st, j));
            if j < depth - 1 {
                assert(frame_within(t, st, j, depth - 1));
            }
        }
        assert forall|i: int, j: int|
            0 <= i < j < next.stack.len() implies #[trigger] frame_within(t, next, i, j) by {
            assert(frame_within(t, st, i, j));
        }
    }
}

/// Reading the closing token that `t` holds next keeps the decoder on `t`.
pub proof fn lemma_follow_close(buf: Seq<u8>, t: Seq<TokenView>, st: ScanState)
    requires
        describes(buf, t),
        scan_ok(buf, st),
        follows(t, st),
        t[st.tokens.len() as int].kind == TokenType::End,
    ensures
        st.stack.len() > 0,
        follows_on(t, after_close(st)),
{
    let k = st.tokens.len() as int;
    let next = after_close(st);
    let depth = st.stack.len() as int;
    lemma_next_token(buf, t, st);
    let c = st.stack.last().token as int;
    assert(frame_follows(t, st, depth - 1));
    assert(token_follows(t, st, c));
    assert(next.tokens[k] == t[k]);
    assert(next.tokens[c] == t[c]);
    assert forall|i: int| 0 <= i < next.tokens.len() implies #[trigger] token_follows(
        t,
        next,
        i,
    ) by {
        if i < k && i != c {
            assert(token_follows(t, st, i));
            assert(next.tokens[i] == st.tokens[i]);
            if on_stack(st, i) {
                let j = choose|j: int|
                    0 <= j < st.stack.len() && (#[trigger] st.stack[j]).token == i;
                assert(next.stack[j].token == i);
            }
        }
    }
    if depth == 1 {
        assert(c == 0);
        let done = finish(next);
        assert(done.len() == t.len());
        assert forall|i: int| 0 <= i < t.len() implies done[i] == t[i] by {
            if i <= k {
                assert(token_follows(t, next, i));
                assert(!on_stack(next, i));
            }
        }
        assert(done =~= t);
    } else {
        assert forall|j: int| 0 <= j < next.stack.len() implies #[trigger] frame_follows(
            t,
            next,
            j,
        ) by {
            assert(frame_follows(t, st, j));
            assert(frame_within(t, st, j, depth - 1));
        }
        assert forall|i: int, j: int|
            0 <= i < j < next.stack.len() implies #[trigger] frame_within(t, next, i, j) by {
            assert(frame_within(t, st, i, j));
        }
        assert(frame_follows(t, next, 0));
        assert(next.off == t[k + 1].offset);
        assert(next.tokens.len() + 1 < t.len());
    }
}

/// Where `needle` stands at index `at` and nowhere before, the search
/// finds it there.
pub proof fn lemma_first_index_is(s: Seq<u8>, needle: u8, at: int)
    requires
        0 <= at < s.len(),
        s[at] == needle,
        forall|j: int| 0 <= j < at ==> s[j] != needle,
    ensures
        first_index(s, needle) == Some(at as nat),
{
    lemma_first_index(s, needle);
}

/// From a state that follows `t`, the decoder's step on an integer reads
/// the integer that `t` holds next.
pub proof fn lemma_follow_int(buf: Seq<u8>, t: Seq<TokenView>, st: ScanState)
    requires
        describes(buf, t),
        scan_ok(buf, st),
        follows(t, st),
        st.stack.len() > 0 || st.tokens.len() == 0,
        t[st.tokens.len() as int].kind == TokenType::Int,
    ensures
        crate::scan::step_int(buf, st) matches Step::Next(next) && follows_on(t, next),
{
    let k = st.tokens.len() as int;
    lemma_next_token(buf, t, st);
    assert(node_ok(t, k));
    let off = st.off as int;
    let next_off = t[k + 1].offset as int;
    let rest = buf.skip(off);
    let literal = buf.subrange(off + 1, next_off - 1);
    lemma_checked_literal_has_no_e(literal);
    assert forall|j: int| 0 <= j < next_off - 1 - off implies rest[j] != CLOSE by {
        if j > 0 {
            assert(rest[j] == literal[j - 1]);
        }
    }
    lemma_first_index_is(rest, CLOSE, next_off - 1 - off);
    lemma_follow_leaf(buf, t, st);
    assert(t[k] == (TokenView {
        offset: st.off,
        kind: TokenType::Int,
        next_item: 1,
        header: 1,
    }));
}

/// From a state that follows `t`, the decoder's step on a string reads the
/// string that `t` holds next.
pub proof fn lemma_follow_str(buf: Seq<u8>, t: Seq<TokenView>, st: ScanState)
    requires
        describes(buf, t),
        within_limits(buf, t),
        scan_ok(buf, st),
        follows(t, st),
        st.stack.len() > 0 || st.tokens.len() == 0,
        t[st.tokens.len() as int].kind == TokenType::Str,
    ensures
        is_digit(buf[st.off as int]),
        crate::scan::step_str(buf, st) matches Step::Next(next) && follows_on(t, next),
{
    let k = st.tokens.len() as int;
    lemma_next_token(buf, t, st);
    assert(node_ok(t, k));
    lemma_string_header_digits(buf, t, k);
    let off = st.off as int;
    let header = t[k].header as int;
    let rest = buf.skip(off);
    let literal = buf.subrange(off, off + header - 1);
    assert(is_digit(literal[0]));
    assert forall|j: int| 0 <= j < header - 1 implies rest[j] != COLON by {
        assert(is_digit(literal[j]));
    }
    lemma_first_index_is(rest, COLON, header - 1);
    lemma_follow_leaf(buf, t, st);
    assert(t[k] == (TokenView {
        offset: st.off,
        kind: TokenType::Str,
        next_item: 1,
        header: t[k].header,
    }));
}

/// From a state that follows `t`, the decoder's step reads the token that
/// `t` holds next.
pub proof fn lemma_follow_step(buf: Seq<u8>, t: Seq<TokenView>, st: ScanState)
    requires
        describes(buf, t),
        within_limits(buf, t),
        scan_ok(buf, st),
        follows(t, st),
        st.stack.len() > 0 || st.tokens.len() == 0,
    ensures
        st.off < buf.len(),
        step(buf, st) matches Step::Next(next) && follows_on(t, next),
{
    let k = st.tokens.len() as int;
    lemma_next_token(buf, t, st);
    match t[k].kind {
        TokenType::Dict => {
            lemma_follow_open(buf, t, st, TokenType::Dict);
        },
        TokenType::List => {
            lemma_follow_open(buf, t, st, TokenType::List);
        },
        TokenType::End => {
            lemma_follow_close(buf, t, st);
        },
        TokenType::Int => {
            lemma_follow_int(buf, t, st);
        },
        TokenType::Str => {
            lemma_follow_str(buf, t, st);
        },
    }
}

/// From a state that follows `t`, the decoder ends with `t`.
pub proof fn lemma_follow_run(buf: Seq<u8>, t: Seq<TokenView>, st: ScanState)
    requires
        describes(buf, t),
        within_limits(buf, t),
        scan_ok(buf, st),
        follows(t, st),
        st.stack.len() > 0 || st.tokens.len() == 0,
    ensures
        run(buf, st) == Ok::<Seq<TokenView>, BdecodeError>(t),
    decreases buf.len() - st.off,
{
    lemma_follow_step(buf, t, st);
    lemma_step(buf, st);
    if let Step::Next(next) = step(buf, st) {
        if next.stack.len() > 0 {
            lemma_follow_run(buf, t, next);
        }
    }
}

/// Decoding is complete: a buffer that a token array describes, both
/// within what the packed tokens can record, decodes to that token array.
/// With what decoding ensures, the buffers that decode are those that some
/// token array describes, and that array is the only one.
pub proof fn lemma_described_decodes(buf: Seq<u8>, t: Seq<TokenView>)
    requires
        describes(buf, t),
        within_limits(buf, t),
    ensures
        decode_spec(buf) == Ok::<Seq<TokenView>, BdecodeError>(t),
{
    crate::tree::lemma_root_kind(buf, t);
    lemma_follow_run(buf, t, initial_state());
}

/// No buffer has two descriptions: token arrays that describe the same
/// buffer, within what the packed tokens can record, are equal.
pub proof fn lemma_description_is_unique(buf: Seq<u8>, t1: Seq<TokenView>, t2: Seq<TokenView>)
    requires
        describes(buf, t1),
        within_limits(buf, t1),
        describes(buf, t2),
        within_limits(buf, t2),
    ensures
        t1 == t2,
{
    lemma_described_decodes(buf, t1);
    lemma_described_decodes(buf, t2);
}

/// Whether `buf` begins with a value that a token array within the limits
/// of the packed tokens describes.
pub open spec fn holds_value(buf: Seq<u8>) -> bool {
    exists|t: Seq<TokenView>| #[trigger] describes(buf, t) && within_limits(buf, t)
}

/// A buffer that the decoder refuses holds no value that tokens could
/// describe.
pub proof fn lemma_refused_holds_none(buf: Seq<u8>)
    requires
        decode_spec(buf).is_err(),
    ensures
        !holds_value(buf),
{
    assert forall|t: Seq<TokenView>| !(#[trigger] describes(buf, t) && within_limits(buf, t)) by {
        if describes(buf, t) && within_limits(buf, t) {
            lemma_described_decodes(buf, t);
        }
    }
}

} // verus!
