use vstd::prelude::*;
use crate::bytes::{CLOSE, DICT_OPEN, INT_OPEN, LIST_OPEN, MINUS};
use crate::layout::{describes, items_ok, node_ok, span_at};
use crate::error::BdecodeError;
use crate::parse_int::{
    all_digits,
    decode_int_spec,
    lemma_digit_run_unique,
    digit_run,
    is_digit,
    lemma_digit_run,
    lemma_digits_value_monotone,
};
use crate::token::{TokenType, TokenView};

verus! {

/// The indices of the nodes that follow one another from `start` up to the
/// next closing token: each begins as many tokens behind the one before as
/// that one records.
pub open spec fn items(t: Seq<TokenView>, start: int) -> Seq<int>
    decreases (if start < t.len() {
        t.len() - start
    } else {
        0
    }),
{
    if start < 0 || start >= t.len() || t[start].kind == TokenType::End || t[start].next_item == 0 {
        Seq::empty()
    } else {
        seq![start] + items(t, start + t[start].next_item)
    }
}

/// The indices of the items of the container whose token is at `index`.
pub open spec fn children(t: Seq<TokenView>, index: int) -> Seq<int> {
    items(t, index + 1)
}

/// Whether `index` is the token of a value inside the tokens `t` of a
/// decoded buffer: a well-formed node that ends before the last token.
pub open spec fn is_node(t: Seq<TokenView>, index: int) -> bool {
    node_ok(t, index) && index + t[index].next_item < t.len()
}

/// The bytes of the string whose token is at `index`: what lies between its
/// header and the next token.
pub open spec fn string_bytes(buf: Seq<u8>, t: Seq<TokenView>, index: int) -> Seq<u8> {
    buf.subrange((t[index].offset + t[index].header) as int, t[index + 1].offset as int)
}

/// The literal of the integer whose token is at `index`: what lies between
/// its `i` and its `e`.
pub open spec fn int_bytes(buf: Seq<u8>, t: Seq<TokenView>, index: int) -> Seq<u8> {
    buf.subrange(t[index].offset as int + 1, t[index + 1].offset as int - 1)
}

/// The number of the first entry, from entry `from` on, whose key is `key`,
/// among the entries that the items `its` make, key and value in turn.
pub open spec fn find_from(
    buf: Seq<u8>,
    t: Seq<TokenView>,
    its: Seq<int>,
    key: Seq<u8>,
    from: int,
) -> Option<int>
    decreases its.len() - 2 * from,
{
    if from < 0 || 2 * from + 1 >= its.len() {
        None
    } else if string_bytes(buf, t, its[2 * from]) == key {
        Some(from)
    } else {
        find_from(buf, t, its, key, from + 1)
    }
}

/// The number of the first entry of the dictionary at `index` whose key is
/// `key`.
pub open spec fn dict_find(buf: Seq<u8>, t: Seq<TokenView>, index: int, key: Seq<u8>) -> Option<
    int,
> {
    find_from(buf, t, children(t, index), key, 0)
}

/// A run of well-formed items that ends at a closing token is what `items`
/// walks: every index it gives lies in the run and opens a well-formed node
/// that ends within the run, and the indices ascend.
pub proof fn lemma_items_nodes(
    t: Seq<TokenView>,
    start: int,
    stop: int,
    dict: bool,
    key_next: bool,
    key_last: bool,
)
    requires
        items_ok(t, start, stop, dict, key_next, key_last),
        0 <= start,
        stop < t.len(),
        t[stop].kind == TokenType::End,
    ensures
        forall|k: int|
            0 <= k < items(t, start).len() ==> {
                &&& start + k <= #[trigger] items(t, start)[k] < stop
                &&& node_ok(t, items(t, start)[k])
                &&& items(t, start)[k] + t[items(t, start)[k]].next_item <= stop
            },
        dict ==> (items(t, start).len() % 2 == 0 <==> key_next == key_last),
        dict ==> forall|k: int|
            0 <= k < items(t, start).len() && (k % 2 == 0 <==> key_next) ==> t[#[trigger] items(
                t,
                start,
            )[k]].kind == TokenType::Str,
    decreases stop - start,
{
    if start < stop {
        let rest = start + t[start].next_item;
        lemma_items_nodes(t, rest, stop, dict, !key_next, key_last);
        assert(node_ok(t, start));
        assert(t[start].kind != TokenType::End);
        assert(items(t, start) =~= seq![start] + items(t, rest));
        assert forall|k: int| 0 <= k < items(t, start).len() implies {
            &&& start + k <= #[trigger] items(t, start)[k] < stop
            &&& node_ok(t, items(t, start)[k])
            &&& items(t, start)[k] + t[items(t, start)[k]].next_item <= stop
        } by {
            if k > 0 {
                assert(items(t, start)[k] == items(t, rest)[k - 1]);
            }
        }
        if dict {
            assert forall|k: int|
                0 <= k < items(t, start).len() && (k % 2 == 0 <==> key_next) implies t[#[trigger] items(
                t,
                start,
            )[k]].kind == TokenType::Str by {
                if k > 0 {
                    assert(items(t, start)[k] == items(t, rest)[k - 1]);
                }
            }
        }
    } else {
        assert(items(t, start) =~= Seq::<int>::empty());
    }
}

/// The items of a container inside decoded tokens are values inside them;
/// a dictionary has as many keys as values, key and value in turn, and its
/// keys are strings.
pub proof fn lemma_children(t: Seq<TokenView>, index: int)
    requires
        is_node(t, index),
        t[index].kind == TokenType::List || t[index].kind == TokenType::Dict,
    ensures
        forall|k: int|
            0 <= k < children(t, index).len() ==> index + k < #[trigger] children(t, index)[k]
                && is_node(t, children(t, index)[k]),
        t[index].kind == TokenType::Dict ==> children(t, index).len() % 2 == 0,
        t[index].kind == TokenType::Dict ==> forall|k: int|
            0 <= k < children(t, index).len() && k % 2 == 0 ==> t[#[trigger] children(
                t,
                index,
            )[k]].kind == TokenType::Str,
{
    let dict = t[index].kind == TokenType::Dict;
    lemma_items_nodes(t, index + 1, index + t[index].next_item - 1, dict, true, true);
}

/// The payload of a string inside a decoded buffer lies within the buffer,
/// behind a header of at least two bytes.
pub proof fn lemma_string_span(buf: Seq<u8>, t: Seq<TokenView>, index: int)
    requires
        describes(buf, t),
        is_node(t, index),
        t[index].kind == TokenType::Str,
    ensures
        index + 1 < t.len(),
        2 <= t[index].header,
        t[index].offset + t[index].header <= t[index + 1].offset <= buf.len(),
{
    assert(span_at(buf, t, index));
}

/// The literal of an integer inside a decoded buffer lies within the
/// buffer, between an `i` and an `e`.
pub proof fn lemma_int_span(buf: Seq<u8>, t: Seq<TokenView>, index: int)
    requires
        describes(buf, t),
        is_node(t, index),
        t[index].kind == TokenType::Int,
    ensures
        index + 1 < t.len(),
        t[index].offset + 2 <= t[index + 1].offset <= buf.len(),
        buf[t[index].offset as int] == INT_OPEN,
        buf[t[index + 1].offset - 1] == CLOSE,
        crate::parse_int::check_integer_spec(int_bytes(buf, t, index)).is_ok(),
{
    assert(span_at(buf, t, index));
}

/// In a run of well-formed items that ends at a closing token, each item
/// is followed, as many tokens further as it records, by the next item or,
/// behind the last item, by the closing token.
pub proof fn lemma_items_next(
    t: Seq<TokenView>,
    start: int,
    stop: int,
    dict: bool,
    key_next: bool,
    key_last: bool,
    k: int,
)
    requires
        items_ok(t, start, stop, dict, key_next, key_last),
        0 <= start,
        stop < t.len(),
        t[stop].kind == TokenType::End,
        0 <= k < items(t, start).len(),
    ensures
        start <= items(t, start)[k] < stop,
        t[items(t, start)[k]].next_item >= 1,
        items(t, start)[k] + t[items(t, start)[k]].next_item <= stop,
        k + 1 < items(t, start).len() ==> items(t, start)[k + 1] == items(t, start)[k] + t[items(
            t,
            start,
        )[k]].next_item,
        k + 1 == items(t, start).len() ==> items(t, start)[k] + t[items(t, start)[k]].next_item
            == stop,
    decreases k,
{
    if start < stop {
        let rest = start + t[start].next_item;
        assert(node_ok(t, start));
        assert(t[start].kind != TokenType::End);
        assert(items(t, start) =~= seq![start] + items(t, rest));
        if k == 0 {
            assert(items_ok(t, rest, stop, dict, !key_next, key_last));
            if rest < stop {
                assert(node_ok(t, rest));
                assert(items(t, rest) =~= seq![rest] + items(t, rest + t[rest].next_item));
            } else {
                assert(items(t, rest) =~= Seq::<int>::empty());
            }
        } else {
            lemma_items_next(t, rest, stop, dict, !key_next, key_last, k - 1);
            assert(items(t, start)[k] == items(t, rest)[k - 1]);
            if k + 1 < items(t, start).len() {
                assert(items(t, start)[k + 1] == items(t, rest)[k]);
            }
        }
    } else {
        assert(items(t, start) =~= Seq::<int>::empty());
    }
}

/// The first item of a container inside decoded tokens is the token behind
/// its own; a container without items has its closing token there.
pub proof fn lemma_child_first(t: Seq<TokenView>, index: int)
    requires
        is_node(t, index),
        t[index].kind == TokenType::List || t[index].kind == TokenType::Dict,
    ensures
        index + 1 < t.len(),
        children(t, index).len() == 0 <==> t[index + 1].kind == TokenType::End,
        children(t, index).len() > 0 ==> children(t, index)[0] == index + 1,
{
    let first = index + 1;
    let stop = index + t[index].next_item - 1;
    let dict = t[index].kind == TokenType::Dict;
    assert(items_ok(t, first, stop, dict, true, true));
    if first < stop {
        assert(node_ok(t, first));
        assert(items(t, first) =~= seq![first] + items(t, first + t[first].next_item));
    }
}

/// Each item of a container inside decoded tokens is followed, as many
/// tokens further as it records, by the next item or, behind the last item,
/// by the closing token of the container.
pub proof fn lemma_child_next(t: Seq<TokenView>, index: int, k: int)
    requires
        is_node(t, index),
        t[index].kind == TokenType::List || t[index].kind == TokenType::Dict,
        0 <= k < children(t, index).len(),
    ensures
        index + k < children(t, index)[k],
        is_node(t, children(t, index)[k]),
        t[children(t, index)[k]].kind != TokenType::End,
        t[children(t, index)[k]].next_item >= 1,
        children(t, index)[k] + t[children(t, index)[k]].next_item < t.len(),
        k + 1 < children(t, index).len() ==> children(t, index)[k + 1] == children(t, index)[k]
            + t[children(t, index)[k]].next_item,
        k + 1 == children(t, index).len() ==> t[children(t, index)[k] + t[children(
            t,
            index,
        )[k]].next_item].kind == TokenType::End,
        t[index].kind == TokenType::Dict && k % 2 == 0 ==> t[children(t, index)[k]].kind
            == TokenType::Str && k + 1 < children(t, index).len(),
{
    let dict = t[index].kind == TokenType::Dict;
    lemma_children(t, index);
    lemma_items_next(t, index + 1, index + t[index].next_item - 1, dict, true, true, k);
}

/// The offsets of decoded tokens rise from token to token.
pub proof fn lemma_offsets_ascend(buf: Seq<u8>, t: Seq<TokenView>, i: int, j: int)
    requires
        describes(buf, t),
        0 <= i < j < t.len(),
    ensures
        t[i].offset + (j - i) <= t[j].offset,
    decreases j - i,
{
    assert(span_at(buf, t, j - 1));
    if i < j - 1 {
        lemma_offsets_ascend(buf, t, i, j - 1);
    }
}

/// What the search for a key finds is the first entry with that key: no
/// entry before it has the key, and where nothing is found no entry has it.
pub proof fn lemma_find_from(
    buf: Seq<u8>,
    t: Seq<TokenView>,
    its: Seq<int>,
    key: Seq<u8>,
    from: int,
)
    requires
        0 <= from,
    ensures
        match find_from(buf, t, its, key, from) {
            Some(e) => {
                &&& from <= e
                &&& 2 * e + 1 < its.len()
                &&& string_bytes(buf, t, its[2 * e]) == key
                &&& forall|j: int| from <= j < e ==> string_bytes(buf, t, #[trigger] its[2 * j]) != key
            },
            None => forall|j: int|
                from <= j && 2 * j + 1 < its.len() ==> string_bytes(buf, t, #[trigger] its[2 * j])
                    != key,
        },
    decreases its.len() - 2 * from,
{
    if 2 * from + 1 < its.len() && string_bytes(buf, t, its[2 * from]) != key {
        lemma_find_from(buf, t, its, key, from + 1);
    }
}

/// A container inside decoded tokens has fewer items than there are
/// tokens.
pub proof fn lemma_children_count(t: Seq<TokenView>, index: int)
    requires
        is_node(t, index),
        t[index].kind == TokenType::List || t[index].kind == TokenType::Dict,
    ensures
        index + children(t, index).len() < t.len(),
{
    lemma_children(t, index);
    let n = children(t, index).len() as int;
    if n > 0 {
        assert(index + (n - 1) < children(t, index)[n - 1]);
    }
}

/// The kind of value that a buffer beginning with `byte` can hold: `d`
/// begins a dictionary, `l` a list, `i` an integer and a digit a string.
pub open spec fn kind_of_first_byte(byte: u8) -> Option<TokenType> {
    if byte == DICT_OPEN {
        Some(TokenType::Dict)
    } else if byte == LIST_OPEN {
        Some(TokenType::List)
    } else if byte == INT_OPEN {
        Some(TokenType::Int)
    } else if is_digit(byte) {
        Some(TokenType::Str)
    } else {
        None
    }
}

/// The length of a string inside a decoded buffer is written in digits
/// alone.
pub proof fn lemma_string_header_digits(buf: Seq<u8>, t: Seq<TokenView>, index: int)
    requires
        describes(buf, t),
        is_node(t, index),
        t[index].kind == TokenType::Str,
    ensures
        all_digits(buf.subrange(t[index].offset as int, t[index].offset + t[index].header - 1)),
        t[index].offset + t[index].header - 1 > t[index].offset,
{
    assert(span_at(buf, t, index));
    let literal = buf.subrange(t[index].offset as int, t[index].offset + t[index].header - 1);
    if literal[0] == MINUS {
        let rest = literal.skip(1);
        lemma_digit_run(rest);
        let run = rest.take(digit_run(rest) as int);
        lemma_digits_value_monotone(run, 0);
        assert(run.take(0) =~= Seq::<u8>::empty());
    }
}

/// The first token of a decoded buffer has the kind that the buffer's first
/// byte begins.
pub proof fn lemma_root_kind(buf: Seq<u8>, t: Seq<TokenView>)
    requires
        describes(buf, t),
    ensures
        buf.len() > 0,
        kind_of_first_byte(buf[0]) == Some(t[0].kind),
{
    assert(span_at(buf, t, 0));
    if t[0].kind == TokenType::Str {
        lemma_string_header_digits(buf, t, 0);
        let literal = buf.subrange(0, t[0].header - 1);
        assert(is_digit(literal[0]));
    }
}

/// The check made while decoding and the reading of an integer agree: the
/// literal of an integer inside a decoded buffer reads as a number, unless
/// the number leaves 64 signed bits or is written as `-0`.
pub proof fn lemma_int_reads(buf: Seq<u8>, t: Seq<TokenView>, index: int)
    requires
        describes(buf, t),
        is_node(t, index),
        t[index].kind == TokenType::Int,
    ensures
        decode_int_spec(int_bytes(buf, t, index)) matches Err(e) ==> e == BdecodeError::Overflow
            || e == BdecodeError::NegativeZero,
{
    lemma_int_span(buf, t, index);
    let literal = int_bytes(buf, t, index);
    if literal[0] == MINUS {
        let rest = literal.skip(1);
        assert(rest.take(rest.len() as int) =~= rest);
        lemma_digit_run_unique(rest, rest.len() as int);
    } else {
        assert(literal.take(literal.len() as int) =~= literal);
        lemma_digit_run_unique(literal, literal.len() as int);
        assert(is_digit(literal[0]));
    }
}

} // verus!
