use vstd::prelude::*;
use crate::bytes::{CLOSE, COLON, DICT_OPEN, INT_OPEN, LIST_OPEN};
use crate::parse_int::check_integer_spec;
use crate::scan::decode_spec;
use crate::complete::{lemma_described_decodes, within_limits};
use crate::error::BdecodeError;
use crate::layout::{describes, items_ok, lemma_items_flags, node_ok, span_at, span_ok};
use crate::roundtrip::{lemma_int_roundtrip, lemma_render_nat, pow10, render_nat};
use crate::token::{TokenType, TokenView, MAX_HEADER, MAX_OFFSET};
use crate::tree::{int_bytes, string_bytes};
use crate::value::{entries_in, value_at, values_in, Value};

verus! {

/// The greatest length of a string whose header a token can record: six
/// digits and the colon.
pub const MAX_STRING: usize = 999_999;

/// The bencoding of a string: its length in digits, a colon, its bytes.
pub open spec fn encode_str(s: Seq<u8>) -> Seq<u8> {
    render_nat(s.len()) + seq![COLON] + s
}

/// The bencoding of a value. An integer is given by its literal.
pub open spec fn encode(v: Value) -> Seq<u8>
    decreases v,
{
    match v {
        Value::Int(literal) => seq![INT_OPEN] + literal + seq![CLOSE],
        Value::Str(s) => encode_str(s),
        Value::List(items) => seq![LIST_OPEN] + encode_items(items) + seq![CLOSE],
        Value::Dict(entries) => seq![DICT_OPEN] + encode_entries(entries) + seq![CLOSE],
    }
}

/// The bencodings of the items of a list, one behind the other.
pub open spec fn encode_items(items: Seq<Value>) -> Seq<u8>
    decreases items,
{
    if items.len() == 0 {
        Seq::empty()
    } else {
        encode(items[0]) + encode_items(items.drop_first())
    }
}

/// The bencodings of the entries of a dictionary, one behind the other,
/// each a key and its value.
pub open spec fn encode_entries(entries: Seq<(Seq<u8>, Value)>) -> Seq<u8>
    decreases entries,
{
    if entries.len() == 0 {
        Seq::empty()
    } else {
        encode_str(entries[0].0) + encode(entries[0].1) + encode_entries(entries.drop_first())
    }
}

/// Whether a value can be bencoded for this decoder: its integers are
/// literals that pass the structural check, and its strings and keys are
/// short enough for their headers.
pub open spec fn encodable(v: Value) -> bool
    decreases v,
{
    match v {
        Value::Int(literal) => check_integer_spec(literal).is_ok(),
        Value::Str(s) => s.len() <= MAX_STRING,
        Value::List(items) => forall|i: int|
            0 <= i < items.len() ==> encodable(#[trigger] items[i]),
        Value::Dict(entries) => forall|i: int|
            0 <= i < entries.len() ==> (#[trigger] entries[i]).0.len() <= MAX_STRING && encodable(
                entries[i].1,
            ),
    }
}

/// The number of tokens that a value takes.
pub open spec fn count(v: Value) -> nat
    decreases v,
{
    match v {
        Value::Int(_) => 1,
        Value::Str(_) => 1,
        Value::List(items) => 2 + count_items(items),
        Value::Dict(entries) => 2 + count_entries(entries),
    }
}

/// The number of tokens that the items of a list take.
pub open spec fn count_items(items: Seq<Value>) -> nat
    decreases items,
{
    if items.len() == 0 {
        0
    } else {
        count(items[0]) + count_items(items.drop_first())
    }
}

/// The number of tokens that the entries of a dictionary take.
pub open spec fn count_entries(entries: Seq<(Seq<u8>, Value)>) -> nat
    decreases entries,
{
    if entries.len() == 0 {
        0
    } else {
        1 + count(entries[0].1) + count_entries(entries.drop_first())
    }
}

/// The token of a string of `len` bytes at byte `off`.
pub open spec fn str_token(len: nat, off: nat) -> TokenView {
    TokenView { offset: off, kind: TokenType::Str, next_item: 1, header: render_nat(len).len() + 1 }
}

/// The tokens of the bencoding of a value that begins at byte `off`.
pub open spec fn tokens_of(v: Value, off: nat) -> Seq<TokenView>
    decreases v,
{
    match v {
        Value::Int(_) => seq![
            TokenView { offset: off, kind: TokenType::Int, next_item: 1, header: 1 },
        ],
        Value::Str(s) => seq![str_token(s.len(), off)],
        Value::List(items) => seq![
            TokenView {
                offset: off,
                kind: TokenType::List,
                next_item: 2 + count_items(items),
                header: 0,
            },
        ] + tokens_of_items(items, off + 1) + seq![
            TokenView {
                offset: off + 1 + encode_items(items).len(),
                kind: TokenType::End,
                next_item: 1,
                header: 0,
            },
        ],
        Value::Dict(entries) => seq![
            TokenView {
                offset: off,
                kind: TokenType::Dict,
                next_item: 2 + count_entries(entries),
                header: 0,
            },
        ] + tokens_of_entries(entries, off + 1) + seq![
            TokenView {
                offset: off + 1 + encode_entries(entries).len(),
                kind: TokenType::End,
                next_item: 1,
                header: 0,
            },
        ],
    }
}

/// The tokens of the items of a list whose bencodings begin at byte `off`.
pub open spec fn tokens_of_items(items: Seq<Value>, off: nat) -> Seq<TokenView>
    decreases items,
{
    if items.len() == 0 {
        Seq::empty()
    } else {
        tokens_of(items[0], off) + tokens_of_items(
            items.drop_first(),
            off + encode(items[0]).len(),
        )
    }
}

/// The tokens of the entries of a dictionary whose bencodings begin at byte
/// `off`.
pub open spec fn tokens_of_entries(entries: Seq<(Seq<u8>, Value)>, off: nat) -> Seq<TokenView>
    decreases entries,
{
    if entries.len() == 0 {
        Seq::empty()
    } else {
        seq![str_token(entries[0].0.len(), off)] + tokens_of(
            entries[0].1,
            off + encode_str(entries[0].0).len(),
        ) + tokens_of_entries(
            entries.drop_first(),
            off + encode_str(entries[0].0).len() + encode(entries[0].1).len(),
        )
    }
}

/// The token array of a buffer that begins with the bencoding of a value:
/// the tokens of the value, and the end marker behind it.
pub open spec fn tokens_with_end(v: Value) -> Seq<TokenView> {
    tokens_of(v, 0).push(
        TokenView { offset: encode(v).len(), kind: TokenType::End, next_item: 0, header: 0 },
    )
}

/// A value takes as many tokens as `count` says, at least one, and its
/// first token begins where its bencoding does.
pub proof fn lemma_tokens_of(v: Value, off: nat)
    ensures
        tokens_of(v, off).len() == count(v),
        count(v) >= 1,
        tokens_of(v, off)[0].offset == off,
        encode(v).len() >= 1,
    decreases v,
{
    match v {
        Value::List(items) => {
            lemma_tokens_of_items(items, off + 1);
        },
        Value::Dict(entries) => {
            lemma_tokens_of_entries(entries, off + 1);
        },
        _ => {},
    }
}

/// The items of a list take as many tokens as `count_items` says, and the
/// first of them begins where the bencodings of the items do.
pub proof fn lemma_tokens_of_items(items: Seq<Value>, off: nat)
    ensures
        tokens_of_items(items, off).len() == count_items(items),
        items.len() > 0 ==> count_items(items) >= 1 && tokens_of_items(items, off)[0].offset
            == off,
        items.len() == 0 ==> count_items(items) == 0 && encode_items(items).len() == 0,
    decreases items,
{
    if items.len() > 0 {
        lemma_tokens_of(items[0], off);
        lemma_tokens_of_items(items.drop_first(), off + encode(items[0]).len());
    }
}

/// The entries of a dictionary take as many tokens as `count_entries`
/// says, and the first of them begins where the bencodings of the entries
/// do.
pub proof fn lemma_tokens_of_entries(entries: Seq<(Seq<u8>, Value)>, off: nat)
    ensures
        tokens_of_entries(entries, off).len() == count_entries(entries),
        entries.len() > 0 ==> count_entries(entries) >= 2 && tokens_of_entries(
            entries,
            off,
        )[0].offset == off,
        entries.len() == 0 ==> count_entries(entries) == 0 && encode_entries(entries).len() == 0,
    decreases entries,
{
    if entries.len() > 0 {
        let key_len = encode_str(entries[0].0).len();
        lemma_tokens_of(entries[0].1, off + key_len);
        lemma_tokens_of_entries(
            entries.drop_first(),
            off + key_len + encode(entries[0].1).len(),
        );
    }
}

/// A part of a sequence that is two sequences, one behind the other, holds
/// each of them in its place.
pub proof fn lemma_split<A>(s: Seq<A>, i: int, a: Seq<A>, b: Seq<A>)
    requires
        0 <= i,
        i + a.len() + b.len() <= s.len(),
        s.subrange(i, i + a.len() + b.len()) == a + b,
    ensures
        s.subrange(i, i + a.len()) == a,
        s.subrange(i + a.len(), i + a.len() + b.len()) == b,
{
    let m = a.len() as int;
    let n = b.len() as int;
    let whole = s.subrange(i, i + m + n);
    let joined = a + b;
    assert(whole.len() == m + n);
    assert forall|j: int| 0 <= j < m implies s.subrange(i, i + m)[j] == a[j] by {
        assert(whole[j] == joined[j]);
        assert(whole[j] == s[i + j]);
    }
    assert forall|j: int| 0 <= j < n implies s.subrange(i + m, i + m + n)[j] == b[j] by {
        assert(whole[m + j] == joined[m + j]);
        assert(whole[m + j] == s[i + m + j]);
        assert(joined[m + j] == b[j]);
    }
    assert(s.subrange(i, i + m) =~= a);
    assert(s.subrange(i + m, i + m + n) =~= b);
}

/// Whether `buf` holds the bytes `part` from byte `off` on.
pub open spec fn holds_bytes(buf: Seq<u8>, off: int, part: Seq<u8>) -> bool {
    &&& 0 <= off
    &&& off + part.len() <= buf.len()
    &&& buf.subrange(off, off + part.len()) == part
}

/// Whether `t` holds the tokens `part` from index `i` on, and a further
/// token behind them.
pub open spec fn holds_tokens(t: Seq<TokenView>, i: int, part: Seq<TokenView>) -> bool {
    &&& 0 <= i
    &&& i + part.len() < t.len()
    &&& t.subrange(i, i + part.len()) == part
}

/// The token of a string agrees with the bencoding of the string, and
/// what lies behind its header is the string.
pub proof fn lemma_str_span(buf: Seq<u8>, s: Seq<u8>, off: int)
    requires
        s.len() <= MAX_STRING,
        holds_bytes(buf, off, encode_str(s)),
    ensures
        span_ok(buf, str_token(s.len(), off as nat), off + encode_str(s).len()),
        2 <= str_token(s.len(), off as nat).header <= MAX_HEADER,
        encode_str(s).len() == str_token(s.len(), off as nat).header + s.len(),
        buf.subrange(
            off + str_token(s.len(), off as nat).header,
            off + encode_str(s).len(),
        ) == s,
{
    let digits = render_nat(s.len());
    let whole = encode_str(s);
    assert(pow10(6) == 1000000) by {
        reveal_with_fuel(pow10, 7);
    }
    lemma_render_nat(s.len(), 6);
    lemma_int_roundtrip(s.len() as i64);
    let header = digits.len() as int + 1;
    let literal = buf.subrange(off, off + header - 1);
    assert forall|j: int| 0 <= j < whole.len() implies buf[off + j] == whole[j] by {
        assert(buf.subrange(off, off + whole.len())[j] == whole[j]);
    }
    assert(literal =~= digits) by {
        assert forall|j: int| 0 <= j < digits.len() implies literal[j] == digits[j] by {
            assert(buf[off + j] == whole[j]);
        }
    }
    assert(buf[off + header - 1] == COLON) by {
        assert(buf[off + header - 1] == whole[header - 1]);
    }
    assert(buf.subrange(off + header, off + whole.len()) =~= s) by {
        assert forall|j: int| 0 <= j < s.len() implies buf.subrange(
            off + header,
            off + whole.len(),
        )[j] == s[j] by {
            assert(buf[off + header + j] == whole[header + j]);
        }
    }
}

/// The token of an integer agrees with the bencoding of the integer, and
/// what lies between its `i` and its `e` is the literal.
pub proof fn lemma_int_span(buf: Seq<u8>, literal: Seq<u8>, off: int)
    requires
        check_integer_spec(literal).is_ok(),
        holds_bytes(buf, off, encode(Value::Int(literal))),
    ensures
        span_ok(
            buf,
            TokenView { offset: off as nat, kind: TokenType::Int, next_item: 1, header: 1 },
            off + literal.len() + 2,
        ),
        encode(Value::Int(literal)).len() == literal.len() + 2,
        buf.subrange(off + 1, off + literal.len() + 1) == literal,
{
    let whole = encode(Value::Int(literal));
    assert forall|j: int| 0 <= j < whole.len() implies buf[off + j] == whole[j] by {
        assert(buf.subrange(off, off + whole.len())[j] == whole[j]);
    }
    assert(buf[off] == whole[0]);
    assert(buf[off + literal.len() + 1] == whole[literal.len() as int + 1]);
    assert(buf.subrange(off + 1, off + literal.len() + 1) =~= literal) by {
        assert forall|j: int| 0 <= j < literal.len() implies buf.subrange(
            off + 1,
            off + literal.len() + 1,
        )[j] == literal[j] by {
            assert(buf[off + 1 + j] == whole[1 + j]);
        }
    }
}

/// Whether the tokens of `t` from index `from` up to `to` agree with
/// their bytes and keep their headers within the limit.
pub open spec fn spans_in(buf: Seq<u8>, t: Seq<TokenView>, from: int, to: int) -> bool {
    forall|x: int| from <= x < to ==> #[trigger] span_fits(buf, t, x)
}

/// Whether token `x` of `t` agrees with its bytes and keeps its header
/// within the limit.
pub open spec fn span_fits(buf: Seq<u8>, t: Seq<TokenView>, x: int) -> bool {
    span_at(buf, t, x) && t[x].header <= MAX_HEADER
}

/// Whether every value among `items` can be bencoded.
pub open spec fn encodable_items(items: Seq<Value>) -> bool {
    forall|i: int| 0 <= i < items.len() ==> encodable(#[trigger] items[i])
}

/// Whether every key and every value among `entries` can be bencoded.
pub open spec fn encodable_entries(entries: Seq<(Seq<u8>, Value)>) -> bool {
    forall|i: int|
        0 <= i < entries.len() ==> (#[trigger] entries[i]).0.len() <= MAX_STRING && encodable(
            entries[i].1,
        )
}

/// Tokens that agree with their bytes before, between and behind two
/// tokens that do so too, agree with their bytes throughout.
pub proof fn lemma_spans_join(buf: Seq<u8>, t: Seq<TokenView>, i: int, n: int)
    requires
        0 <= n,
        span_fits(buf, t, i),
        spans_in(buf, t, i + 1, i + 1 + n),
        span_fits(buf, t, i + 1 + n),
    ensures
        spans_in(buf, t, i, i + 2 + n),
{
}

/// Where tokens hold the tokens of a container, they hold its opening
/// token, the tokens of what it contains, and its closing token, each in
/// its place.
pub proof fn lemma_container_tokens(
    t: Seq<TokenView>,
    i: int,
    open: TokenView,
    inner: Seq<TokenView>,
    close: TokenView,
)
    requires
        holds_tokens(t, i, seq![open] + inner + seq![close]),
    ensures
        t[i] == open,
        t[i + 1 + inner.len()] == close,
        holds_tokens(t, i + 1, inner),
        inner.len() > 0 ==> t[i + 1] == inner[0],
{
    let n = inner.len() as int;
    lemma_split(t, i, seq![open] + inner, seq![close]);
    lemma_split(t, i, seq![open], inner);
    assert(t.subrange(i, i + 1)[0] == open);
    assert(t.subrange(i + 1 + n, i + 2 + n)[0] == close);
    if n > 0 {
        assert(t.subrange(i + 1, i + 1 + n)[0] == inner[0]);
    }
}

/// Where a buffer holds the bencoding of a container, it holds the opening
/// byte, the bencodings of what it contains, and the closing byte, each in
/// its place.
pub proof fn lemma_container_bytes(buf: Seq<u8>, off: int, open: u8, inner: Seq<u8>)
    requires
        holds_bytes(buf, off, seq![open] + inner + seq![CLOSE]),
    ensures
        buf[off] == open,
        buf[off + 1 + inner.len()] == CLOSE,
        holds_bytes(buf, off + 1, inner),
{
    let n = inner.len() as int;
    lemma_split(buf, off, seq![open] + inner, seq![CLOSE]);
    lemma_split(buf, off, seq![open], inner);
    assert(buf.subrange(off, off + 1)[0] == open);
    assert(buf.subrange(off + 1 + n, off + 2 + n)[0] == CLOSE);
}

/// Where a buffer holds the bencoding of a value and tokens hold the
/// tokens of the value, the tokens open a well-formed node there, agree
/// with the bytes, and the value at the first of them is that value.
pub proof fn lemma_embed(buf: Seq<u8>, t: Seq<TokenView>, v: Value, i: int, off: nat)
    requires
        encodable(v),
        holds_tokens(t, i, tokens_of(v, off)),
        holds_bytes(buf, off as int, encode(v)),
        t[i + count(v)].offset == off + encode(v).len(),
    ensures
        node_ok(t, i),
        t[i].next_item == count(v),
        t[i].offset == off,
        t[i].kind == TokenType::Str <==> v is Str,
        spans_in(buf, t, i, i + count(v)),
        value_at(buf, t, i) == v,
    decreases v, 0nat,
{
    match v {
        Value::Int(literal) => {
            assert(t.subrange(i, i + 1)[0] == tokens_of(v, off)[0]);
            lemma_int_span(buf, literal, off as int);
            assert(span_fits(buf, t, i));
            assert(int_bytes(buf, t, i) =~= literal);
        },
        Value::Str(s) => {
            assert(t.subrange(i, i + 1)[0] == tokens_of(v, off)[0]);
            lemma_str_span(buf, s, off as int);
            assert(span_fits(buf, t, i));
            assert(string_bytes(buf, t, i) =~= s);
        },
        Value::List(items) => {
            lemma_embed_list(buf, t, items, i, off);
        },
        Value::Dict(entries) => {
            lemma_embed_dict(buf, t, entries, i, off);
        },
    }
}

/// `lemma_embed` for a list.
pub proof fn lemma_embed_list(buf: Seq<u8>, t: Seq<TokenView>, items: Seq<Value>, i: int, off: nat)
    requires
        encodable_items(items),
        holds_tokens(t, i, tokens_of(Value::List(items), off)),
        holds_bytes(buf, off as int, encode(Value::List(items))),
        t[i + count(Value::List(items))].offset == off + encode(Value::List(items)).len(),
    ensures
        node_ok(t, i),
        t[i].next_item == count(Value::List(items)),
        t[i].offset == off,
        t[i].kind == TokenType::List,
        spans_in(buf, t, i, i + count(Value::List(items))),
        value_at(buf, t, i) == Value::List(items),
    decreases items, 1nat,
{
    let v = Value::List(items);
    let part = tokens_of(v, off);
    let inner = tokens_of_items(items, off + 1);
    let inner_bytes = encode_items(items);
    lemma_tokens_of_items(items, off + 1);
    let n = inner.len() as int;
    lemma_container_tokens(t, i, part[0], inner, part[n + 1]);
    lemma_container_bytes(buf, off as int, LIST_OPEN, inner_bytes);
    lemma_embed_items(buf, t, items, i + 1, off + 1);
    assert(span_fits(buf, t, i));
    assert(span_fits(buf, t, i + 1 + n));
    lemma_spans_join(buf, t, i, n);
}

/// `lemma_embed` for a dictionary.
pub proof fn lemma_embed_dict(
    buf: Seq<u8>,
    t: Seq<TokenView>,
    entries: Seq<(Seq<u8>, Value)>,
    i: int,
    off: nat,
)
    requires
        encodable_entries(entries),
        holds_tokens(t, i, tokens_of(Value::Dict(entries), off)),
        holds_bytes(buf, off as int, encode(Value::Dict(entries))),
        t[i + count(Value::Dict(entries))].offset == off + encode(Value::Dict(entries)).len(),
    ensures
        node_ok(t, i),
        t[i].next_item == count(Value::Dict(entries)),
        t[i].offset == off,
        t[i].kind == TokenType::Dict,
        spans_in(buf, t, i, i + count(Value::Dict(entries))),
        value_at(buf, t, i) == Value::Dict(entries),
    decreases entries, 1nat,
{
    let v = Value::Dict(entries);
    let part = tokens_of(v, off);
    let inner = tokens_of_entries(entries, off + 1);
    let inner_bytes = encode_entries(entries);
    lemma_tokens_of_entries(entries, off + 1);
    let n = inner.len() as int;
    lemma_container_tokens(t, i, part[0], inner, part[n + 1]);
    lemma_container_bytes(buf, off as int, DICT_OPEN, inner_bytes);
    lemma_embed_entries(buf, t, entries, i + 1, off + 1);
    assert(span_fits(buf, t, i));
    assert(span_fits(buf, t, i + 1 + n));
    lemma_spans_join(buf, t, i, n);
}

/// Where a buffer holds the bencodings of the items of a list and tokens
/// hold their tokens, the tokens are a run of well-formed items, agree with
/// the bytes, and the values of the run are the items.
pub proof fn lemma_embed_items(buf: Seq<u8>, t: Seq<TokenView>, items: Seq<Value>, i: int, off: nat)
    requires
        encodable_items(items),
        holds_tokens(t, i, tokens_of_items(items, off)),
        holds_bytes(buf, off as int, encode_items(items)),
        t[i + count_items(items)].offset == off + encode_items(items).len(),
    ensures
        items_ok(t, i, i + count_items(items), false, true, true),
        spans_in(buf, t, i, i + count_items(items)),
        values_in(buf, t, i, i + count_items(items)) == items,
    decreases items, 0nat,
{
    lemma_tokens_of_items(items, off);
    let stop = i + count_items(items);
    if items.len() == 0 {
        assert(values_in(buf, t, i, stop) =~= items);
    } else {
        let first = items[0];
        let rest = items.drop_first();
        let first_bytes = encode(first).len();
        let head = tokens_of(first, off);
        let tail = tokens_of_items(rest, off + first_bytes);
        lemma_tokens_of(first, off);
        lemma_tokens_of_items(rest, off + first_bytes);
        lemma_split(t, i, head, tail);
        lemma_split(buf, off as int, encode(first), encode_items(rest));
        let mid = i + count(first);
        if rest.len() > 0 {
            assert(t.subrange(mid, mid + tail.len())[0] == tail[0]);
        }
        assert(encodable(first));
        assert(encodable_items(rest)) by {
            assert forall|k: int| 0 <= k < rest.len() implies encodable(#[trigger] rest[k]) by {
                assert(rest[k] == items[k + 1]);
            }
        }
        lemma_embed(buf, t, first, i, off);
        lemma_embed_items(buf, t, rest, mid, off + first_bytes);
        lemma_items_flags(t, mid, stop, true, true, false, true);
        assert(values_in(buf, t, i, stop) =~= seq![first] + rest);
        assert(seq![first] + rest =~= items);
    }
}

/// Where a buffer holds the bencodings of the entries of a dictionary and
/// tokens hold their tokens, the tokens are a run of well-formed keys and
/// values, agree with the bytes, and the entries of the run are those
/// entries.
pub proof fn lemma_embed_entries(
    buf: Seq<u8>,
    t: Seq<TokenView>,
    entries: Seq<(Seq<u8>, Value)>,
    i: int,
    off: nat,
)
    requires
        encodable_entries(entries),
        holds_tokens(t, i, tokens_of_entries(entries, off)),
        holds_bytes(buf, off as int, encode_entries(entries)),
        t[i + count_entries(entries)].offset == off + encode_entries(entries).len(),
    ensures
        items_ok(t, i, i + count_entries(entries), true, true, true),
        spans_in(buf, t, i, i + count_entries(entries)),
        entries_in(buf, t, i, i + count_entries(entries)) == entries,
    decreases entries, 0nat,
{
    lemma_tokens_of_entries(entries, off);
    let stop = i + count_entries(entries);
    if entries.len() == 0 {
        assert(entries_in(buf, t, i, stop) =~= entries);
    } else {
        let key = entries[0].0;
        let value = entries[0].1;
        let rest = entries.drop_first();
        let key_bytes = encode_str(key).len();
        let value_bytes = encode(value).len();
        let key_token = seq![str_token(key.len(), off)];
        let head = tokens_of(value, off + key_bytes);
        let tail = tokens_of_entries(rest, off + key_bytes + value_bytes);
        lemma_tokens_of(value, off + key_bytes);
        lemma_tokens_of_entries(rest, off + key_bytes + value_bytes);
        assert(tokens_of_entries(entries, off) =~= key_token + (head + tail));
        lemma_split(t, i, key_token, head + tail);
        lemma_split(t, i + 1, head, tail);
        assert(encode_entries(entries) =~= encode_str(key) + (encode(value) + encode_entries(
            rest,
        )));
        lemma_split(buf, off as int, encode_str(key), encode(value) + encode_entries(rest));
        lemma_split(buf, off as int + key_bytes, encode(value), encode_entries(rest));
        assert(t.subrange(i, i + 1)[0] == key_token[0]);
        assert(t.subrange(i + 1, i + 1 + head.len())[0] == head[0]);
        let mid = i + 1 + count(value);
        if rest.len() > 0 {
            assert(t.subrange(mid, mid + tail.len())[0] == tail[0]);
        }
        assert(entries[0].0.len() <= MAX_STRING && encodable(entries[0].1));
        assert(encodable_entries(rest)) by {
            assert forall|k: int| 0 <= k < rest.len() implies (#[trigger] rest[k]).0.len()
                <= MAX_STRING && encodable(rest[k].1) by {
                assert(rest[k] == entries[k + 1]);
            }
        }
        lemma_str_span(buf, key, off as int);
        assert(span_fits(buf, t, i));
        assert(node_ok(t, i));
        lemma_embed(buf, t, value, i + 1, off + key_bytes);
        lemma_embed_entries(buf, t, rest, mid, off + key_bytes + value_bytes);
        assert(items_ok(t, i + 1, stop, true, false, true));
        assert(string_bytes(buf, t, i) =~= key);
        assert(entries_in(buf, t, i, stop) =~= seq![(key, value)] + rest);
        assert(seq![(key, value)] + rest =~= entries);
    }
}

/// The token array of a bencoded value describes every buffer that begins
/// with the bencoding, and the value at its first token is the value that
/// was bencoded.
pub proof fn lemma_encoded_is_described(v: Value, rest: Seq<u8>)
    requires
        encodable(v),
        encode(v).len() + rest.len() <= MAX_OFFSET,
    ensures
        describes(encode(v) + rest, tokens_with_end(v)),
        within_limits(encode(v) + rest, tokens_with_end(v)),
        value_at(encode(v) + rest, tokens_with_end(v), 0) == v,
{
    let buf = encode(v) + rest;
    let t = tokens_with_end(v);
    lemma_tokens_of(v, 0);
    assert(t.subrange(0, count(v) as int) =~= tokens_of(v, 0));
    assert(buf.subrange(0, encode(v).len() as int) =~= encode(v));
    lemma_embed(buf, t, v, 0, 0);
    assert forall|x: int| 0 <= x < t.len() implies (#[trigger] t[x]).header <= MAX_HEADER by {
        if x < count(v) {
            assert(span_fits(buf, t, x));
        }
    }
    assert forall|x: int| 0 <= x < t.len() - 1 implies #[trigger] span_at(buf, t, x) by {
        assert(span_fits(buf, t, x));
    }
}

/// Round trip of a value: a buffer that begins with the bencoding of a
/// value decodes, whatever follows the bencoding, to the tokens of that
/// value, and the value at the first of them is the value that was
/// bencoded.
pub proof fn lemma_encoded_decodes(v: Value, rest: Seq<u8>)
    requires
        encodable(v),
        encode(v).len() + rest.len() <= MAX_OFFSET,
    ensures
        decode_spec(encode(v) + rest) == Ok::<Seq<TokenView>, BdecodeError>(tokens_with_end(v)),
        value_at(encode(v) + rest, tokens_with_end(v), 0) == v,
{
    lemma_encoded_is_described(v, rest);
    lemma_described_decodes(encode(v) + rest, tokens_with_end(v));
}

} // verus!
