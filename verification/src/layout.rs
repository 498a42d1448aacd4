use vstd::prelude::*;
use crate::bytes::{CLOSE, COLON, DICT_OPEN, INT_OPEN, LIST_OPEN};
use crate::parse_int::{check_integer_spec, decode_int_spec};
use crate::token::{TokenType, TokenView};

verus! {

/// Whether the token at index `i` of `t` opens a well-formed node: a string
/// or an integer is one token; a container records the number of tokens up
/// to and with its closing token, and the tokens between are its items, each
/// a well-formed node, a dictionary's being keys and values in turn, the
/// keys strings.
pub open spec fn node_ok(t: Seq<TokenView>, i: int) -> bool
    decreases t[i].next_item, 0nat,
{
    &&& 0 <= i < t.len()
    &&& match t[i].kind {
        TokenType::Str => t[i].next_item == 1,
        TokenType::Int => t[i].next_item == 1,
        TokenType::End => false,
        TokenType::List => {
            &&& t[i].next_item >= 2
            &&& i + t[i].next_item <= t.len()
            &&& t[i + t[i].next_item - 1].kind == TokenType::End
            &&& items_ok(t, i + 1, i + t[i].next_item - 1, false, true, true)
        },
        TokenType::Dict => {
            &&& t[i].next_item >= 2
            &&& i + t[i].next_item <= t.len()
            &&& t[i + t[i].next_item - 1].kind == TokenType::End
            &&& items_ok(t, i + 1, i + t[i].next_item - 1, true, true, true)
        },
    }
}

/// Whether the tokens from `start` up to `stop` are a run of well-formed
/// nodes, each beginning where the one before ends. In a dictionary a key is
/// expected at `start` if `key_next` holds, and at `stop` if `key_last`
/// holds; where a key is expected the node is a string.
pub open spec fn items_ok(
    t: Seq<TokenView>,
    start: int,
    stop: int,
    dict: bool,
    key_next: bool,
    key_last: bool,
) -> bool
    decreases stop - start, 1nat,
{
    if start >= stop {
        start == stop && (dict ==> key_next == key_last)
    } else {
        &&& 1 <= t[start].next_item <= stop - start
        &&& (dict && key_next ==> t[start].kind == TokenType::Str)
        &&& node_ok(t, start)
        &&& items_ok(t, start + t[start].next_item, stop, dict, !key_next, key_last)
    }
}

/// The digits that write the length of the string with token `tok`: the
/// bytes of its header but the colon.
pub open spec fn length_literal(buf: Seq<u8>, tok: TokenView) -> Seq<u8> {
    buf.subrange(tok.offset as int, tok.offset + tok.header - 1)
}

/// Whether the token `tok` agrees with the bytes of `buf` that it stands
/// for, which end where the next token begins, at `next_off`: a container
/// and a closing token with their one byte, an integer with a literal
/// between `i` and `e` that passes the structural check, a string with a
/// header of digits and a colon that is followed by as many bytes as the
/// digits say.
pub open spec fn span_ok(buf: Seq<u8>, tok: TokenView, next_off: int) -> bool {
    &&& tok.offset < next_off <= buf.len()
    &&& match tok.kind {
        TokenType::Dict => {
            &&& buf[tok.offset as int] == DICT_OPEN
            &&& next_off == tok.offset + 1
            &&& tok.header == 0
        },
        TokenType::List => {
            &&& buf[tok.offset as int] == LIST_OPEN
            &&& next_off == tok.offset + 1
            &&& tok.header == 0
        },
        TokenType::End => {
            &&& buf[tok.offset as int] == CLOSE
            &&& next_off == tok.offset + 1
            &&& tok.header == 0
            &&& tok.next_item == 1
        },
        TokenType::Int => {
            &&& buf[tok.offset as int] == INT_OPEN
            &&& tok.offset + 2 <= next_off
            &&& buf[next_off - 1] == CLOSE
            &&& check_integer_spec(buf.subrange(tok.offset as int + 1, next_off - 1)).is_ok()
            &&& tok.header == 1
        },
        TokenType::Str => {
            &&& tok.header >= 2
            &&& tok.offset + tok.header <= next_off
            &&& buf[tok.offset + tok.header - 1] == COLON
            &&& check_integer_spec(length_literal(buf, tok)).is_ok()
            &&& decode_int_spec(length_literal(buf, tok)) matches Ok(length) && length == next_off
                - tok.offset - tok.header
        },
    }
}

/// Whether token `i` of `t` agrees with the bytes that it stands for, which
/// end where token `i + 1` begins.
pub open spec fn span_at(buf: Seq<u8>, t: Seq<TokenView>, i: int) -> bool {
    span_ok(buf, t[i], t[i + 1].offset as int)
}

/// Whether `t` is the token array of the value that `buf` begins with: the
/// first token opens a well-formed node at byte 0 that takes up all tokens
/// but the last, every token agrees with its bytes, and the last token marks
/// the byte behind the value and records nothing else.
pub open spec fn describes(buf: Seq<u8>, t: Seq<TokenView>) -> bool {
    &&& t.len() >= 2
    &&& node_ok(t, 0)
    &&& t[0].next_item == t.len() - 1
    &&& t[0].offset == 0
    &&& t.last().kind == TokenType::End
    &&& t.last().next_item == 0
    &&& t.last().header == 0
    &&& t.last().offset <= buf.len()
    &&& forall|i: int| 0 <= i < t.len() - 1 ==> #[trigger] span_at(buf, t, i)
}

/// A well-formed node stays one in any array that holds the same tokens
/// from its first to its last.
pub proof fn lemma_node_agree(t1: Seq<TokenView>, t2: Seq<TokenView>, i: int)
    requires
        node_ok(t1, i),
        i + t1[i].next_item <= t2.len(),
        forall|x: int| i <= x < i + t1[i].next_item ==> t1[x] == t2[x],
    ensures
        node_ok(t2, i),
    decreases t1[i].next_item, 0nat,
{
    assert(t1[i] == t2[i]);
    match t1[i].kind {
        TokenType::List => {
            lemma_items_agree(t1, t2, i + 1, i + t1[i].next_item - 1, false, true, true);
        },
        TokenType::Dict => {
            lemma_items_agree(t1, t2, i + 1, i + t1[i].next_item - 1, true, true, true);
        },
        _ => {},
    }
}

/// A run of well-formed nodes stays one in any array that holds the same
/// tokens from `start` up to `stop`.
pub proof fn lemma_items_agree(
    t1: Seq<TokenView>,
    t2: Seq<TokenView>,
    start: int,
    stop: int,
    dict: bool,
    key_next: bool,
    key_last: bool,
)
    requires
        items_ok(t1, start, stop, dict, key_next, key_last),
        0 <= start,
        stop <= t1.len(),
        stop <= t2.len(),
        forall|x: int| start <= x < stop ==> t1[x] == t2[x],
    ensures
        items_ok(t2, start, stop, dict, key_next, key_last),
    decreases stop - start, 1nat,
{
    if start < stop {
        assert(t1[start] == t2[start]);
        lemma_node_agree(t1, t2, start);
        lemma_items_agree(t1, t2, start + t1[start].next_item, stop, dict, !key_next, key_last);
    }
}

/// A run of well-formed nodes that ends where a further well-formed node
/// begins makes, with that node, a longer run.
pub proof fn lemma_items_append(
    t: Seq<TokenView>,
    start: int,
    mid: int,
    dict: bool,
    key_next: bool,
    key_mid: bool,
)
    requires
        items_ok(t, start, mid, dict, key_next, key_mid),
        node_ok(t, mid),
        dict && key_mid ==> t[mid].kind == TokenType::Str,
    ensures
        items_ok(t, start, mid + t[mid].next_item, dict, key_next, !key_mid),
    decreases mid - start,
{
    let stop = mid + t[mid].next_item;
    if start >= mid {
        assert(items_ok(t, stop, stop, dict, !key_next, !key_mid));
    } else {
        lemma_items_append(t, start + t[start].next_item, mid, dict, !key_next, key_mid);
    }
}

/// Where a run of well-formed items and a shorter run begin at the same
/// token, the rest of the longer run is a run of well-formed items too.
pub proof fn lemma_items_split(
    t: Seq<TokenView>,
    start: int,
    mid: int,
    stop: int,
    dict: bool,
    key_next: bool,
    key_mid: bool,
    key_last: bool,
)
    requires
        items_ok(t, start, stop, dict, key_next, key_last),
        items_ok(t, start, mid, dict, key_next, key_mid),
        mid <= stop,
    ensures
        items_ok(t, mid, stop, dict, key_mid, key_last),
    decreases mid - start,
{
    if start >= mid {
        if !dict {
            lemma_items_flags(t, start, stop, key_next, key_last, key_mid, key_last);
        }
    } else {
        lemma_items_split(
            t,
            start + t[start].next_item,
            mid,
            stop,
            dict,
            !key_next,
            key_mid,
            key_last,
        );
    }
}

/// In a list the run of items is well-formed whatever is said of keys.
pub proof fn lemma_items_flags(
    t: Seq<TokenView>,
    start: int,
    stop: int,
    k1: bool,
    l1: bool,
    k2: bool,
    l2: bool,
)
    requires
        items_ok(t, start, stop, false, k1, l1),
    ensures
        items_ok(t, start, stop, false, k2, l2),
    decreases stop - start,
{
    if start < stop {
        lemma_items_flags(t, start + t[start].next_item, stop, !k1, l1, !k2, l2);
    }
}

} // verus!
