use vstd::prelude::*;
use crate::layout::{items_ok, node_ok};
use crate::token::{TokenType, TokenView};
use crate::tree::{children, int_bytes, is_node, items, string_bytes};

verus! {

/// A bencoded value as a tree.
pub enum Value {
    /// An integer, by its literal.
    Int(Seq<u8>),
    /// A byte string.
    Str(Seq<u8>),
    /// A list, by its items.
    List(Seq<Value>),
    /// A dictionary, by its entries, each a key and a value, in the order
    /// in which the buffer holds them.
    Dict(Seq<(Seq<u8>, Value)>),
}

/// The value whose token is at index `i` of the tokens `t` of `buf`.
pub open spec fn value_at(buf: Seq<u8>, t: Seq<TokenView>, i: int) -> Value
    decreases t[i].next_item, 0nat,
{
    match t[i].kind {
        TokenType::Int => Value::Int(int_bytes(buf, t, i)),
        TokenType::List => if t[i].next_item >= 2 {
            Value::List(values_in(buf, t, i + 1, i + t[i].next_item - 1))
        } else {
            Value::List(Seq::empty())
        },
        TokenType::Dict => if t[i].next_item >= 2 {
            Value::Dict(entries_in(buf, t, i + 1, i + t[i].next_item - 1))
        } else {
            Value::Dict(Seq::empty())
        },
        _ => Value::Str(string_bytes(buf, t, i)),
    }
}

/// The values whose tokens follow one another from `start` up to `stop`.
pub open spec fn values_in(buf: Seq<u8>, t: Seq<TokenView>, start: int, stop: int) -> Seq<Value>
    decreases stop - start, 1nat,
{
    if start >= stop || t[start].next_item < 1 || t[start].next_item > stop - start {
        Seq::empty()
    } else {
        seq![value_at(buf, t, start)] + values_in(buf, t, start + t[start].next_item, stop)
    }
}

/// The entries whose tokens follow one another from `start` up to `stop`:
/// a key, which is one token, and behind it its value.
pub open spec fn entries_in(buf: Seq<u8>, t: Seq<TokenView>, start: int, stop: int) -> Seq<
    (Seq<u8>, Value),
>
    decreases stop - start, 1nat,
{
    if start >= stop || start + 1 >= stop || t[start + 1].next_item < 1 || t[start + 1].next_item
        > stop - (start + 1) {
        Seq::empty()
    } else {
        seq![(string_bytes(buf, t, start), value_at(buf, t, start + 1))] + entries_in(
            buf,
            t,
            start + 1 + t[start + 1].next_item,
            stop,
        )
    }
}

/// The items of the list whose token is at `index`, as values.
pub open spec fn list_values(buf: Seq<u8>, t: Seq<TokenView>, index: int) -> Seq<Value> {
    values_in(buf, t, index + 1, index + t[index].next_item - 1)
}

/// The entries of the dictionary whose token is at `index`, as keys and
/// values.
pub open spec fn dict_entries(buf: Seq<u8>, t: Seq<TokenView>, index: int) -> Seq<
    (Seq<u8>, Value),
> {
    entries_in(buf, t, index + 1, index + t[index].next_item - 1)
}

/// The number of the first entry among `entries` whose key is `key`, from
/// entry `from` on.
pub open spec fn first_with_key(entries: Seq<(Seq<u8>, Value)>, key: Seq<u8>, from: int) -> Option<
    int,
>
    decreases entries.len() - from,
{
    if from < 0 || from >= entries.len() {
        None
    } else if entries[from].0 == key {
        Some(from)
    } else {
        first_with_key(entries, key, from + 1)
    }
}

/// The values of a run of well-formed items are the values at the tokens
/// at which the items begin.
pub proof fn lemma_values_in(
    buf: Seq<u8>,
    t: Seq<TokenView>,
    start: int,
    stop: int,
    k1: bool,
    l1: bool,
)
    requires
        items_ok(t, start, stop, false, k1, l1),
        0 <= start,
        stop < t.len(),
        t[stop].kind == TokenType::End,
    ensures
        values_in(buf, t, start, stop).len() == items(t, start).len(),
        forall|k: int|
            0 <= k < items(t, start).len() ==> #[trigger] values_in(buf, t, start, stop)[k]
                == value_at(buf, t, items(t, start)[k]),
    decreases stop - start,
{
    if start < stop {
        let rest = start + t[start].next_item;
        assert(node_ok(t, start));
        lemma_values_in(buf, t, rest, stop, !k1, l1);
        assert(items(t, start) =~= seq![start] + items(t, rest));
        assert forall|k: int| 0 <= k < items(t, start).len() implies #[trigger] values_in(
            buf,
            t,
            start,
            stop,
        )[k] == value_at(buf, t, items(t, start)[k]) by {
            if k > 0 {
                assert(values_in(buf, t, start, stop)[k] == values_in(buf, t, rest, stop)[k - 1]);
                assert(items(t, start)[k] == items(t, rest)[k - 1]);
            }
        }
    } else {
        assert(items(t, start) =~= Seq::<int>::empty());
    }
}

/// The entries of a run of well-formed keys and values are the keys and
/// the values at the tokens at which they begin, two by two.
pub proof fn lemma_entries_in(buf: Seq<u8>, t: Seq<TokenView>, start: int, stop: int)
    requires
        items_ok(t, start, stop, true, true, true),
        0 <= start,
        stop < t.len(),
        t[stop].kind == TokenType::End,
    ensures
        2 * entries_in(buf, t, start, stop).len() == items(t, start).len(),
        forall|e: int|
            0 <= e < entries_in(buf, t, start, stop).len() ==> #[trigger] entries_in(
                buf,
                t,
                start,
                stop,
            )[e] == (
                string_bytes(buf, t, items(t, start)[2 * e]),
                value_at(buf, t, items(t, start)[2 * e + 1]),
            ),
    decreases stop - start,
{
    if start < stop {
        let value = start + 1;
        assert(node_ok(t, start));
        assert(t[start].next_item == 1);
        assert(items_ok(t, value, stop, true, false, true));
        assert(node_ok(t, value));
        let rest = value + t[value].next_item;
        assert(items_ok(t, rest, stop, true, true, true));
        lemma_entries_in(buf, t, rest, stop);
        assert(items(t, start) =~= seq![start] + items(t, value));
        assert(items(t, value) =~= seq![value] + items(t, rest));
        assert(items(t, start) =~= seq![start, value] + items(t, rest));
        let all = entries_in(buf, t, start, stop);
        let tail = entries_in(buf, t, rest, stop);
        assert(all =~= seq![(string_bytes(buf, t, start), value_at(buf, t, value))] + tail);
        assert forall|e: int| 0 <= e < all.len() implies #[trigger] all[e] == (
            string_bytes(buf, t, items(t, start)[2 * e]),
            value_at(buf, t, items(t, start)[2 * e + 1]),
        ) by {
            if e > 0 {
                assert(all[e] == tail[e - 1]);
                assert(items(t, start)[2 * e] == items(t, rest)[2 * (e - 1)]);
                assert(items(t, start)[2 * e + 1] == items(t, rest)[2 * (e - 1) + 1]);
            }
        }
    } else {
        assert(items(t, start) =~= Seq::<int>::empty());
    }
}

/// The value of a list inside decoded tokens is the list of the values of
/// its items.
pub proof fn lemma_list_value(buf: Seq<u8>, t: Seq<TokenView>, index: int)
    requires
        is_node(t, index),
        t[index].kind == TokenType::List,
    ensures
        value_at(buf, t, index) == Value::List(list_values(buf, t, index)),
        list_values(buf, t, index).len() == children(t, index).len(),
        forall|k: int|
            0 <= k < children(t, index).len() ==> #[trigger] list_values(buf, t, index)[k]
                == value_at(buf, t, children(t, index)[k]),
{
    lemma_values_in(buf, t, index + 1, index + t[index].next_item - 1, true, true);
}

/// The value of a dictionary inside decoded tokens is the list of its
/// entries, each the bytes of a key and the value behind it.
pub proof fn lemma_dict_value(buf: Seq<u8>, t: Seq<TokenView>, index: int)
    requires
        is_node(t, index),
        t[index].kind == TokenType::Dict,
    ensures
        value_at(buf, t, index) == Value::Dict(dict_entries(buf, t, index)),
        2 * dict_entries(buf, t, index).len() == children(t, index).len(),
        forall|e: int|
            0 <= e < dict_entries(buf, t, index).len() ==> #[trigger] dict_entries(buf, t, index)[e]
                == (
                string_bytes(buf, t, children(t, index)[2 * e]),
                value_at(buf, t, children(t, index)[2 * e + 1]),
            ),
{
    lemma_entries_in(buf, t, index + 1, index + t[index].next_item - 1);
}

} // verus!
