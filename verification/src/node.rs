use vstd::cell::invcell::InvCell;
use vstd::prelude::*;
use vstd::predicate::Predicate;
use vstd::slice::slice_subrange;
use crate::decode::token_views;
use crate::error::BdecodeError;
use crate::iterators::{BencodeDictIter, BencodeListIter};
use crate::layout::describes;
use crate::parse_int::{decode_int, decode_int_spec};
use crate::token::{Token, TokenType, TokenView, MAX_OFFSET};
use crate::tree::{
    children,
    dict_find,
    find_from,
    int_bytes,
    is_node,
    lemma_child_first,
    lemma_child_next,
    lemma_children,
    lemma_children_count,
    lemma_find_from,
    lemma_int_reads,
    lemma_int_span,
    lemma_offsets_ascend,
    lemma_string_span,
    string_bytes,
};
use crate::value::{
    dict_entries,
    first_with_key,
    lemma_dict_value,
    lemma_list_value,
    list_values,
    value_at,
    Value,
};

verus! {

/// What a value is.
#[derive(Debug, Clone, Copy, PartialEq, Eq, Structural)]
pub enum NodeType {
    /// The value is a dictionary.
    Dict,
    /// The value is a list.
    List,
    /// The value is a byte string.
    Str,
    /// The value is an integer.
    Int,
}

/// What a value is, by its tree.
pub open spec fn type_of_value(value: Value) -> NodeType {
    match value {
        Value::Dict(_) => NodeType::Dict,
        Value::List(_) => NodeType::List,
        Value::Str(_) => NodeType::Str,
        Value::Int(_) => NodeType::Int,
    }
}

/// The node type that a token of the given kind opens, if it opens one.
pub open spec fn node_type_of(kind: TokenType) -> Option<NodeType> {
    match kind {
        TokenType::Dict => Some(NodeType::Dict),
        TokenType::List => Some(NodeType::List),
        TokenType::Str => Some(NodeType::Str),
        TokenType::Int => Some(NodeType::Int),
        TokenType::End => None,
    }
}

/// A value of any type inside a decoded buffer. `as_list`, `as_dict`,
/// `as_int` and `as_string` turn it into a handle of its own type.
#[derive(Clone, Copy)]
pub struct BencodeAny<'a, 't> {
    buf: &'a [u8],
    root_tokens: &'t [Token],
    token_idx: usize,
}

/// An integer inside a decoded buffer.
#[derive(Clone, Copy)]
pub struct BencodeInt<'a, 't> {
    buf: &'a [u8],
    root_tokens: &'t [Token],
    token_idx: usize,
}

/// A byte string inside a decoded buffer.
#[derive(Clone, Copy)]
pub struct BencodeString<'a, 't> {
    buf: &'a [u8],
    root_tokens: &'t [Token],
    token_idx: usize,
}

impl<'a, 't> View for BencodeAny<'a, 't> {
    type V = Value;

    /// The value as a tree.
    open spec fn view(&self) -> Value {
        value_at(self.buffer(), self.tokens(), self.index())
    }
}

impl<'a, 't> View for BencodeInt<'a, 't> {
    type V = Seq<u8>;

    /// The literal of the integer.
    open spec fn view(&self) -> Seq<u8> {
        int_bytes(self.buffer(), self.tokens(), self.index())
    }
}

impl<'a, 't> View for BencodeString<'a, 't> {
    type V = Seq<u8>;

    /// The bytes of the string.
    open spec fn view(&self) -> Seq<u8> {
        string_bytes(self.buffer(), self.tokens(), self.index())
    }
}

impl<'a, 't> BencodeAny<'a, 't> {
    /// The handle points at a value inside a decoded buffer.
    #[verifier::type_invariant]
    closed spec fn well_formed(&self) -> bool {
        &&& describes(self.buf@, token_views(self.root_tokens@))
        &&& is_node(token_views(self.root_tokens@), self.token_idx as int)
    }

    /// The bytes of the decoded buffer.
    pub closed spec fn buffer(&self) -> Seq<u8> {
        self.buf@
    }

    /// The tokens of the decoded buffer.
    pub closed spec fn tokens(&self) -> Seq<TokenView> {
        token_views(self.root_tokens@)
    }

    /// The index of the token that opens this value.
    pub closed spec fn index(&self) -> int {
        self.token_idx as int
    }

    /// The kind of the token that opens this value.
    pub open spec fn kind(&self) -> TokenType {
        self.tokens()[self.index()].kind
    }

    /// A handle on the value whose token is at `token_idx`.
    pub(crate) fn at(buf: &'a [u8], root_tokens: &'t [Token], token_idx: usize) -> (r: Self)
        requires
            describes(buf@, token_views(root_tokens@)),
            is_node(token_views(root_tokens@), token_idx as int),
        ensures
            r.buffer() == buf@,
            r.tokens() == token_views(root_tokens@),
            r.index() == token_idx,
    {
        BencodeAny { buf, root_tokens, token_idx }
    }

    /// The type of the value.
    pub fn node_type(&self) -> (r: NodeType)
        ensures
            r == type_of_value(self@),
            node_type_of(self.kind()) == Some(r),
    {
        proof {
            use_type_invariant(self);
        }
        let token_type = self.root_tokens[self.token_idx].token_type();
        match token_type {
            TokenType::Dict => NodeType::Dict,
            TokenType::List => NodeType::List,
            TokenType::Int => NodeType::Int,
            _ => NodeType::Str,
        }
    }

    /// The value as an integer, if it is one.
    pub fn as_int(&self) -> (r: Option<BencodeInt<'a, 't>>)
        ensures
            r.is_some() <==> self.kind() == TokenType::Int,
            r matches Some(h) ==> h.buffer() == self.buffer() && h.tokens() == self.tokens()
                && h.index() == self.index() && self@ == Value::Int(h@),
    {
        proof {
            use_type_invariant(self);
        }
        if self.node_type() != NodeType::Int {
            return None;
        }
        Some(BencodeInt { buf: self.buf, root_tokens: self.root_tokens, token_idx: self.token_idx })
    }

    /// The value as a byte string, if it is one.
    pub fn as_string(&self) -> (r: Option<BencodeString<'a, 't>>)
        ensures
            r.is_some() <==> self.kind() == TokenType::Str,
            r matches Some(h) ==> h.buffer() == self.buffer() && h.tokens() == self.tokens()
                && h.index() == self.index() && self@ == Value::Str(h@),
    {
        proof {
            use_type_invariant(self);
        }
        if self.node_type() != NodeType::Str {
            return None;
        }
        Some(
            BencodeString {
                buf: self.buf,
                root_tokens: self.root_tokens,
                token_idx: self.token_idx,
            },
        )
    }
}

impl<'a, 't> BencodeInt<'a, 't> {
    /// The handle points at an integer inside a decoded buffer.
    #[verifier::type_invariant]
    closed spec fn well_formed(&self) -> bool {
        &&& describes(self.buf@, token_views(self.root_tokens@))
        &&& is_node(token_views(self.root_tokens@), self.token_idx as int)
        &&& token_views(self.root_tokens@)[self.token_idx as int].kind == TokenType::Int
    }

    /// The bytes of the decoded buffer.
    pub closed spec fn buffer(&self) -> Seq<u8> {
        self.buf@
    }

    /// The tokens of the decoded buffer.
    pub closed spec fn tokens(&self) -> Seq<TokenView> {
        token_views(self.root_tokens@)
    }

    /// The index of the token of this integer.
    pub closed spec fn index(&self) -> int {
        self.token_idx as int
    }

    /// The literal of the integer: the bytes of the buffer between its `i`
    /// and its `e`, borrowed from the buffer.
    pub fn as_bytes(&self) -> (r: &'a [u8])
        ensures
            r@ == self@,
    {
        proof {
            use_type_invariant(self);
            lemma_int_span(self.buf@, token_views(self.root_tokens@), self.token_idx as int);
        }
        let t_off = self.root_tokens[self.token_idx].offset();
        let t_next_off = self.root_tokens[self.token_idx + 1].offset();
        // without the `i` before the literal and the `e` behind it
        slice_subrange(self.buf, t_off + 1, t_next_off - 1)
    }

    /// The integer as a number of 64 signed bits, or the reason why its
    /// literal is none.
    pub fn value(&self) -> (r: Result<i64, BdecodeError>)
        ensures
            r == decode_int_spec(self@),
            r matches Err(e) ==> e == BdecodeError::Overflow || e == BdecodeError::NegativeZero,
    {
        proof {
            use_type_invariant(self);
            lemma_int_reads(self.buf@, token_views(self.root_tokens@), self.token_idx as int);
        }
        decode_int(self.as_bytes())
    }
}

impl<'a, 't> BencodeString<'a, 't> {
    /// The handle points at a string inside a decoded buffer.
    #[verifier::type_invariant]
    closed spec fn well_formed(&self) -> bool {
        &&& describes(self.buf@, token_views(self.root_tokens@))
        &&& is_node(token_views(self.root_tokens@), self.token_idx as int)
        &&& token_views(self.root_tokens@)[self.token_idx as int].kind == TokenType::Str
    }

    /// The bytes of the decoded buffer.
    pub closed spec fn buffer(&self) -> Seq<u8> {
        self.buf@
    }

    /// The tokens of the decoded buffer.
    pub closed spec fn tokens(&self) -> Seq<TokenView> {
        token_views(self.root_tokens@)
    }

    /// The index of the token of this string.
    pub closed spec fn index(&self) -> int {
        self.token_idx as int
    }

    /// The bytes of the string, borrowed from the buffer.
    pub fn as_bytes(&self) -> (r: &'a [u8])
        ensures
            r@ == self@,
    {
        proof {
            use_type_invariant(self);
            lemma_string_span(self.buf@, token_views(self.root_tokens@), self.token_idx as int);
        }
        let t = &self.root_tokens[self.token_idx];
        let t_off = t.offset();
        let t_off_start = t.header();
        let t_next_off = self.root_tokens[self.token_idx + 1].offset();
        slice_subrange(self.buf, t_off + t_off_start, t_next_off)
    }
}

/// Decoded tokens are few enough for their indices to be machine numbers.
proof fn lemma_tokens_fit(buf: Seq<u8>, tokens: Seq<Token>)
    requires
        describes(buf, token_views(tokens)),
    ensures
        tokens.len() <= MAX_OFFSET + 1,
{
    let t = token_views(tokens);
    lemma_offsets_ascend(buf, t, 0, t.len() - 1);
    tokens[t.len() - 1].lemma_bounds();
}

/// What a container may remember of a lookup: the index of an item, or of
/// an entry of a dictionary, and the token at which it begins.
pub struct LookupCache {
    /// The tokens of the decoded buffer.
    pub tokens: Seq<TokenView>,
    /// The index of the container's token.
    pub container: int,
    /// Whether the container is a dictionary, in which two items make an
    /// entry.
    pub pairs: bool,
}

impl Predicate<Option<(usize, usize)>> for LookupCache {
    /// Whether the item or entry with the number remembered begins at the
    /// token remembered.
    open spec fn predicate(&self, v: Option<(usize, usize)>) -> bool {
        match v {
            None => true,
            Some((token, index)) => {
                let item = if self.pairs {
                    2 * index
                } else {
                    index as int
                };
                item < children(self.tokens, self.container).len() && children(
                    self.tokens,
                    self.container,
                )[item] == token
            },
        }
    }
}

/// What a container may remember of its length: the number of its items,
/// or of the entries of a dictionary.
pub struct SizeCache {
    /// The tokens of the decoded buffer.
    pub tokens: Seq<TokenView>,
    /// The index of the container's token.
    pub container: int,
    /// Whether the container is a dictionary, in which two items make an
    /// entry.
    pub pairs: bool,
}

impl Predicate<Option<usize>> for SizeCache {
    /// Whether the length remembered is the length of the container.
    open spec fn predicate(&self, v: Option<usize>) -> bool {
        match v {
            None => true,
            Some(size) => children(self.tokens, self.container).len() == (if self.pairs {
                2 * size
            } else {
                size as int
            }),
        }
    }
}

/// A list inside a decoded buffer. The handle remembers the last item
/// looked up, and the length once it is known; neither changes what a
/// lookup returns.
pub struct BencodeList<'a, 't> {
    buf: &'a [u8],
    root_tokens: &'t [Token],
    token_idx: usize,
    cached_lookup: InvCell<Option<(usize, usize)>, LookupCache>,
    cached_size: InvCell<Option<usize>, SizeCache>,
}

impl<'a, 't> View for BencodeList<'a, 't> {
    type V = Seq<Value>;

    /// The items of the list as trees.
    open spec fn view(&self) -> Seq<Value> {
        list_values(self.buffer(), self.tokens(), self.index())
    }
}

impl<'a, 't> BencodeList<'a, 't> {
    /// The handle points at a list inside a decoded buffer, and what it
    /// remembers is true of that list.
    #[verifier::type_invariant]
    closed spec fn well_formed(&self) -> bool {
        let t = token_views(self.root_tokens@);
        &&& describes(self.buf@, t)
        &&& is_node(t, self.token_idx as int)
        &&& t[self.token_idx as int].kind == TokenType::List
        &&& self.cached_lookup.predicate() == (LookupCache {
            tokens: t,
            container: self.token_idx as int,
            pairs: false,
        })
        &&& self.cached_size.predicate() == (SizeCache {
            tokens: t,
            container: self.token_idx as int,
            pairs: false,
        })
    }

    /// The bytes of the decoded buffer.
    pub closed spec fn buffer(&self) -> Seq<u8> {
        self.buf@
    }

    /// The tokens of the decoded buffer.
    pub closed spec fn tokens(&self) -> Seq<TokenView> {
        token_views(self.root_tokens@)
    }

    /// The index of the token that opens this list.
    pub closed spec fn index(&self) -> int {
        self.token_idx as int
    }

    /// The indices of the tokens at which the items of the list begin.
    pub open spec fn items(&self) -> Seq<int> {
        children(self.tokens(), self.index())
    }

    /// A handle on the value whose token is at `token_idx`.
    fn create_any(&self, token_idx: usize) -> (r: BencodeAny<'a, 't>)
        requires
            is_node(self.tokens(), token_idx as int),
        ensures
            r.buffer() == self.buffer(),
            r.tokens() == self.tokens(),
            r.index() == token_idx,
    {
        proof {
            use_type_invariant(self);
        }
        BencodeAny::at(self.buf, self.root_tokens, token_idx)
    }

    /// Returns the item at the given index, or `None` where the list has
    /// no such item. What the handle remembers of earlier lookups makes no
    /// difference to the result.
    pub fn get(&self, index: usize) -> (r: Option<BencodeAny<'a, 't>>)
        ensures
            r.is_some() <==> index < self@.len(),
            r matches Some(item) ==> item@ == self@[index as int],
            self@.len() == self.items().len(),
            r matches Some(item) ==> item.buffer() == self.buffer() && item.tokens()
                == self.tokens() && item.index() == self.items()[index as int],
    {
        proof {
            use_type_invariant(self);
        }
        let ghost t = token_views(self.root_tokens@);
        let ghost at = self.token_idx as int;
        proof {
            lemma_list_value(self.buf@, t, at);
            lemma_child_first(t, at);
            lemma_tokens_fit(self.buf@, self.root_tokens@);
        }
        let mut token: usize = self.token_idx + 1;
        let mut item: usize = 0;
        if self.root_tokens[token].token_type() == TokenType::End {
            // index out of range
            self.cached_size.set(Some(item));
            return None;
        }
        // a lookup at or behind the last one goes on from there
        if let Some((last_token, last_index)) = self.cached_lookup.get() {
            if last_index <= index {
                token = last_token;
                item = last_index;
            }
        }
        while item < index
            invariant
                is_node(t, at),
                at == self.token_idx,
                t == token_views(self.root_tokens@),
                t[at].kind == TokenType::List,
                item <= index,
                item < children(t, at).len(),
                children(t, at)[item as int] == token,
                self.cached_size.predicate() == (SizeCache {
                    tokens: t,
                    container: at,
                    pairs: false,
                }),
            decreases index - item,
        {
            proof {
                lemma_child_next(t, at, item as int);
                if item + 1 < children(t, at).len() {
                    lemma_child_next(t, at, item + 1);
                }
            }
            token += self.root_tokens[token].next_item();
            item += 1;
            if self.root_tokens[token].token_type() == TokenType::End {
                // index out of range; so much is known now
                self.cached_size.set(Some(item));
                proof {
                    lemma_list_value(self.buf@, t, at);
                }
                return None;
            }
        }
        // there is no point in remembering the first item
        if index > 0 {
            self.cached_lookup.set(Some((token, index)));
        }
        proof {
            lemma_child_next(t, at, item as int);
        }
        Some(self.create_any(token))
    }

    /// Returns how many items there are in this list. The length is
    /// counted once and remembered.
    pub fn len(&self) -> (r: usize)
        ensures
            r == self@.len(),
            r == self.items().len(),
    {
        proof {
            use_type_invariant(self);
            lemma_list_value(
                self.buf@,
                token_views(self.root_tokens@),
                self.token_idx as int,
            );
        }
        if let Some(size) = self.cached_size.get() {
            return size;
        }
        let ghost t = token_views(self.root_tokens@);
        let ghost at = self.token_idx as int;
        proof {
            lemma_child_first(t, at);
            lemma_tokens_fit(self.buf@, self.root_tokens@);
        }
        let mut token: usize = self.token_idx + 1;
        let mut size: usize = 0;
        if let Some((last_token, last_index)) = self.cached_lookup.get() {
            proof {
                lemma_child_next(t, at, last_index as int);
            }
            token = last_token;
            size = last_index;
        }
        while self.root_tokens[token].token_type() != TokenType::End
            invariant
                is_node(t, at),
                at == self.token_idx,
                t == token_views(self.root_tokens@),
                t[at].kind == TokenType::List,
                token < t.len(),
                size <= token,
                size <= children(t, at).len(),
                size < children(t, at).len() ==> children(t, at)[size as int] == token,
                size == children(t, at).len() ==> t[token as int].kind == TokenType::End,
            decreases children(t, at).len() - size,
        {
            proof {
                if size < children(t, at).len() {
                    lemma_child_next(t, at, size as int);
                    if size + 1 < children(t, at).len() {
                        lemma_child_next(t, at, size + 1);
                    }
                }
            }
            token += self.root_tokens[token].next_item();
            size += 1;
        }
        proof {
            if size < children(t, at).len() {
                lemma_child_next(t, at, size as int);
            }
        }
        self.cached_size.set(Some(size));
        size
    }

    /// Returns a walk over the items of the list, which begins at the
    /// first.
    pub fn iter(&self) -> (r: BencodeListIter<'a, 't>)
        ensures
            r@ == self@,
            r.buffer() == self.buffer(),
            r.tokens() == self.tokens(),
            r.list_index() == self.index(),
            r.passed() == 0,
    {
        proof {
            use_type_invariant(self);
            let t = token_views(self.root_tokens@);
            lemma_child_first(t, self.token_idx as int);
            lemma_children_count(t, self.token_idx as int);
            lemma_tokens_fit(self.buf@, self.root_tokens@);
        }
        let size = match self.cached_size.get() {
            Some(size) => Some(size as u32),
            None => None,
        };
        BencodeListIter::new(
            self.buf,
            self.root_tokens,
            self.token_idx + 1,
            size,
            Ghost(self.token_idx as int),
        )
    }

    /// Returns true if the list has no items.
    pub fn is_empty(&self) -> (r: bool)
        ensures
            r == (self@.len() == 0),
    {
        self.len() == 0
    }
}

impl<'a, 't> Clone for BencodeList<'a, 't> {
    /// A second handle on the same list, which remembers what this one
    /// does.
    fn clone(&self) -> (r: Self)
        ensures
            r@ == self@,
            r.buffer() == self.buffer(),
            r.tokens() == self.tokens(),
            r.index() == self.index(),
    {
        proof {
            use_type_invariant(self);
        }
        BencodeList {
            buf: self.buf,
            root_tokens: self.root_tokens,
            token_idx: self.token_idx,
            cached_lookup: InvCell::new(
                self.cached_lookup.get(),
                Ghost(self.cached_lookup.predicate()),
            ),
            cached_size: InvCell::new(self.cached_size.get(), Ghost(self.cached_size.predicate())),
        }
    }
}

impl<'a, 't> BencodeAny<'a, 't> {
    /// The value as a list, if it is one.
    pub fn as_list(&self) -> (r: Option<BencodeList<'a, 't>>)
        ensures
            r.is_some() <==> self.kind() == TokenType::List,
            r matches Some(h) ==> h.buffer() == self.buffer() && h.tokens() == self.tokens()
                && h.index() == self.index() && self@ == Value::List(h@),
    {
        proof {
            use_type_invariant(self);
            if self.kind() == TokenType::List {
                lemma_list_value(
                    self.buf@,
                    token_views(self.root_tokens@),
                    self.token_idx as int,
                );
            }
        }
        if self.node_type() != NodeType::List {
            return None;
        }
        let ghost t = token_views(self.root_tokens@);
        Some(
            BencodeList {
                buf: self.buf,
                root_tokens: self.root_tokens,
                token_idx: self.token_idx,
                cached_lookup: InvCell::new(
                    None,
                    Ghost(LookupCache { tokens: t, container: self.token_idx as int, pairs: false }),
                ),
                cached_size: InvCell::new(
                    None,
                    Ghost(SizeCache { tokens: t, container: self.token_idx as int, pairs: false }),
                ),
            },
        )
    }
}

/// Whether two slices hold the same bytes.
fn bytes_equal(a: &[u8], b: &[u8]) -> (r: bool)
    ensures
        r == (a@ == b@),
{
    if a.len() != b.len() {
        return false;
    }
    let mut i: usize = 0;
    while i < a.len()
        invariant
            a.len() == b.len(),
            i <= a.len(),
            forall|j: int| 0 <= j < i ==> a@[j] == b@[j],
        decreases a.len() - i,
    {
        if a[i] != b[i] {
            return false;
        }
        i += 1;
    }
    assert(a@ =~= b@);
    true
}

/// A dictionary inside a decoded buffer. The handle remembers the last
/// entry looked up by its number, and the length once it is known; neither
/// changes what a lookup returns.
pub struct BencodeDict<'a, 't> {
    buf: &'a [u8],
    root_tokens: &'t [Token],
    token_idx: usize,
    cached_lookup: InvCell<Option<(usize, usize)>, LookupCache>,
    cached_size: InvCell<Option<usize>, SizeCache>,
}

impl<'a, 't> View for BencodeDict<'a, 't> {
    type V = Seq<(Seq<u8>, Value)>;

    /// The entries of the dictionary, each a key and the tree of its value,
    /// in the order in which the buffer holds them.
    open spec fn view(&self) -> Seq<(Seq<u8>, Value)> {
        dict_entries(self.buffer(), self.tokens(), self.index())
    }
}

/// The search for a key among the tokens of a dictionary finds the entry
/// that the search among its entries finds.
proof fn lemma_find_agrees(
    buf: Seq<u8>,
    t: Seq<TokenView>,
    its: Seq<int>,
    entries: Seq<(Seq<u8>, Value)>,
    key: Seq<u8>,
    from: int,
)
    requires
        0 <= from,
        2 * entries.len() == its.len(),
        forall|e: int|
            0 <= e < entries.len() ==> (#[trigger] entries[e]).0 == string_bytes(
                buf,
                t,
                its[2 * e],
            ),
    ensures
        find_from(buf, t, its, key, from) == first_with_key(entries, key, from),
    decreases entries.len() - from,
{
    if from < entries.len() {
        assert(entries[from].0 == string_bytes(buf, t, its[2 * from]));
        if entries[from].0 != key {
            lemma_find_agrees(buf, t, its, entries, key, from + 1);
        }
    }
}

impl<'a, 't> BencodeDict<'a, 't> {
    /// The handle points at a dictionary inside a decoded buffer, and what
    /// it remembers is true of that dictionary.
    #[verifier::type_invariant]
    closed spec fn well_formed(&self) -> bool {
        let t = token_views(self.root_tokens@);
        &&& describes(self.buf@, t)
        &&& is_node(t, self.token_idx as int)
        &&& t[self.token_idx as int].kind == TokenType::Dict
        &&& self.cached_lookup.predicate() == (LookupCache {
            tokens: t,
            container: self.token_idx as int,
            pairs: true,
        })
        &&& self.cached_size.predicate() == (SizeCache {
            tokens: t,
            container: self.token_idx as int,
            pairs: true,
        })
    }

    /// The bytes of the decoded buffer.
    pub closed spec fn buffer(&self) -> Seq<u8> {
        self.buf@
    }

    /// The tokens of the decoded buffer.
    pub closed spec fn tokens(&self) -> Seq<TokenView> {
        token_views(self.root_tokens@)
    }

    /// The index of the token that opens this dictionary.
    pub closed spec fn index(&self) -> int {
        self.token_idx as int
    }

    /// The indices of the tokens at which the keys and values begin, key
    /// and value in turn.
    pub open spec fn items(&self) -> Seq<int> {
        children(self.tokens(), self.index())
    }

    /// The number of entries.
    pub open spec fn spec_len(&self) -> int {
        self.items().len() as int / 2
    }

    /// The bytes of the key that begins at token `token`.
    fn key_at(&self, token: usize) -> (r: &'a [u8])
        requires
            token < self.tokens().len(),
            is_node(self.tokens(), token as int),
            self.tokens()[token as int].kind == TokenType::Str,
        ensures
            r@ == string_bytes(self.buffer(), self.tokens(), token as int),
    {
        proof {
            use_type_invariant(self);
        }
        // a key is always a string
        self.create_any(token).as_string().unwrap().as_bytes()
    }

    /// A handle on the value whose token is at `token_idx`.
    fn create_any(&self, token_idx: usize) -> (r: BencodeAny<'a, 't>)
        requires
            is_node(self.tokens(), token_idx as int),
        ensures
            r.buffer() == self.buffer(),
            r.tokens() == self.tokens(),
            r.index() == token_idx,
    {
        proof {
            use_type_invariant(self);
        }
        BencodeAny::at(self.buf, self.root_tokens, token_idx)
    }

    /// Returns the entry with the given number, its key and its value, or
    /// `None` where the dictionary has no such entry. What the handle
    /// remembers of earlier lookups makes no difference to the result.
    pub fn get(&self, index: usize) -> (r: Option<(&'a [u8], BencodeAny<'a, 't>)>)
        ensures
            r.is_some() <==> index < self@.len(),
            r matches Some(entry) ==> (entry.0@, entry.1@) == self@[index as int],
            self@.len() == self.spec_len(),
            r matches Some(entry) ==> entry.0@ == string_bytes(
                self.buffer(),
                self.tokens(),
                self.items()[2 * index],
            ) && entry.1.buffer() == self.buffer() && entry.1.tokens() == self.tokens()
                && entry.1.index() == self.items()[2 * index + 1],
    {
        proof {
            use_type_invariant(self);
        }
        let ghost t = token_views(self.root_tokens@);
        let ghost at = self.token_idx as int;
        proof {
            lemma_dict_value(self.buf@, t, at);
            lemma_child_first(t, at);
            lemma_children(t, at);
            lemma_tokens_fit(self.buf@, self.root_tokens@);
        }
        let mut token: usize = self.token_idx + 1;
        let mut item: usize = 0;
        if self.root_tokens[token].token_type() == TokenType::End {
            // index out of range
            self.cached_size.set(Some(item));
            return None;
        }
        // a lookup at or behind the last one goes on from there
        if let Some((last_token, last_index)) = self.cached_lookup.get() {
            if last_index <= index {
                token = last_token;
                item = last_index;
            }
        }
        while item < index
            invariant
                is_node(t, at),
                at == self.token_idx,
                t == token_views(self.root_tokens@),
                t[at].kind == TokenType::Dict,
                children(t, at).len() % 2 == 0,
                item <= index,
                2 * item < children(t, at).len(),
                children(t, at)[2 * item] == token,
                self.cached_size.predicate() == (SizeCache {
                    tokens: t,
                    container: at,
                    pairs: true,
                }),
            decreases index - item,
        {
            proof {
                lemma_child_next(t, at, 2 * item);
                lemma_child_next(t, at, 2 * item + 1);
                if 2 * item + 2 < children(t, at).len() {
                    lemma_child_next(t, at, 2 * item + 2);
                }
            }
            // skip the key; its value follows
            token += self.root_tokens[token].next_item();
            // skip the value
            token += self.root_tokens[token].next_item();
            item += 1;
            if self.root_tokens[token].token_type() == TokenType::End {
                // index out of range; so much is known now
                self.cached_size.set(Some(item));
                proof {
                    lemma_dict_value(self.buf@, t, at);
                }
                return None;
            }
        }
        // there is no point in remembering the first entry
        if index > 0 {
            self.cached_lookup.set(Some((token, index)));
        }
        proof {
            lemma_child_next(t, at, 2 * item);
            lemma_child_next(t, at, 2 * item + 1);
        }
        let key = self.key_at(token);
        let value_token = token + self.root_tokens[token].next_item();
        Some((key, self.create_any(value_token)))
    }

    /// Returns the value of the first entry whose key is `key`, or `None`
    /// where no entry has that key. The entries are searched from the
    /// first; nothing is remembered.
    pub fn find(&self, key: &[u8]) -> (r: Option<BencodeAny<'a, 't>>)
        ensures
            r.is_some() <==> first_with_key(self@, key@, 0).is_some(),
            r matches Some(value) ==> value@ == self@[first_with_key(self@, key@, 0).unwrap()].1,
            first_with_key(self@, key@, 0) == dict_find(
                self.buffer(),
                self.tokens(),
                self.index(),
                key@,
            ),
            r.is_some() <==> dict_find(self.buffer(), self.tokens(), self.index(), key@).is_some(),
            r matches Some(value) ==> value.buffer() == self.buffer() && value.tokens()
                == self.tokens() && value.index() == self.items()[2 * dict_find(
                self.buffer(),
                self.tokens(),
                self.index(),
                key@,
            ).unwrap() + 1],
    {
        proof {
            use_type_invariant(self);
        }
        let ghost t = token_views(self.root_tokens@);
        let ghost at = self.token_idx as int;
        let ghost its = children(t, at);
        proof {
            lemma_dict_value(self.buf@, t, at);
            lemma_find_agrees(self.buf@, t, its, dict_entries(self.buf@, t, at), key@, 0);
            lemma_find_from(self.buf@, t, its, key@, 0);
            lemma_child_first(t, at);
            lemma_children(t, at);
            lemma_tokens_fit(self.buf@, self.root_tokens@);
        }
        let mut token: usize = self.token_idx + 1;
        let ghost mut entry: int = 0;
        while self.root_tokens[token].token_type() != TokenType::End
            invariant
                is_node(t, at),
                at == self.token_idx,
                t == token_views(self.root_tokens@),
                t[at].kind == TokenType::Dict,
                its == children(t, at),
                describes(self.buf@, t),
                self.buf@ == self.buffer(),
                t == self.tokens(),
                its.len() % 2 == 0,
                token < t.len(),
                0 <= 2 * entry <= its.len(),
                2 * entry < its.len() ==> its[2 * entry] == token,
                2 * entry == its.len() ==> t[token as int].kind == TokenType::End,
                find_from(self.buf@, t, its, key@, entry) == find_from(self.buf@, t, its, key@, 0),
            decreases its.len() - 2 * entry,
        {
            proof {
                lemma_child_next(t, at, 2 * entry);
                lemma_child_next(t, at, 2 * entry + 1);
                if 2 * entry + 2 < its.len() {
                    lemma_child_next(t, at, 2 * entry + 2);
                }
            }
            let candidate = self.key_at(token);
            // the value follows its key
            token += self.root_tokens[token].next_item();
            if bytes_equal(candidate, key) {
                proof {
                    lemma_dict_value(self.buf@, t, at);
                    lemma_find_agrees(self.buf@, t, its, dict_entries(self.buf@, t, at), key@, 0);
                }
                return Some(self.create_any(token));
            }
            // skip the value
            token += self.root_tokens[token].next_item();
            proof {
                entry = entry + 1;
            }
        }
        None
    }

    /// Returns how many entries there are in this dictionary. The length is
    /// counted once and remembered.
    pub fn len(&self) -> (r: usize)
        ensures
            r == self@.len(),
            r == self.spec_len(),
    {
        proof {
            use_type_invariant(self);
            lemma_dict_value(
                self.buf@,
                token_views(self.root_tokens@),
                self.token_idx as int,
            );
        }
        if let Some(size) = self.cached_size.get() {
            return size;
        }
        let ghost t = token_views(self.root_tokens@);
        let ghost at = self.token_idx as int;
        proof {
            lemma_child_first(t, at);
            lemma_children(t, at);
            lemma_tokens_fit(self.buf@, self.root_tokens@);
        }
        let mut token: usize = self.token_idx + 1;
        let mut item: usize = 0;
        if let Some((last_token, last_index)) = self.cached_lookup.get() {
            proof {
                lemma_child_next(t, at, 2 * last_index);
            }
            token = last_token;
            item = last_index * 2;
        }
        while self.root_tokens[token].token_type() != TokenType::End
            invariant
                is_node(t, at),
                at == self.token_idx,
                t == token_views(self.root_tokens@),
                t[at].kind == TokenType::Dict,
                token < t.len(),
                item <= token,
                item <= children(t, at).len(),
                item < children(t, at).len() ==> children(t, at)[item as int] == token,
                item == children(t, at).len() ==> t[token as int].kind == TokenType::End,
            decreases children(t, at).len() - item,
        {
            proof {
                if item < children(t, at).len() {
                    lemma_child_next(t, at, item as int);
                    if item + 1 < children(t, at).len() {
                        lemma_child_next(t, at, item + 1);
                    }
                }
            }
            token += self.root_tokens[token].next_item();
            item += 1;
        }
        proof {
            if item < children(t, at).len() {
                lemma_child_next(t, at, item as int);
            }
        }
        // an entry is a key and a value: two items
        let size = item / 2;
        self.cached_size.set(Some(size));
        size
    }

    /// Returns a walk over the entries of the dictionary, which begins at
    /// the first.
    pub fn iter(&self) -> (r: BencodeDictIter<'a, 't>)
        ensures
            r@ == self@,
            r.buffer() == self.buffer(),
            r.tokens() == self.tokens(),
            r.dict_index() == self.index(),
            r.passed() == 0,
    {
        proof {
            use_type_invariant(self);
            let t = token_views(self.root_tokens@);
            lemma_child_first(t, self.token_idx as int);
            lemma_children_count(t, self.token_idx as int);
            lemma_tokens_fit(self.buf@, self.root_tokens@);
        }
        let size = match self.cached_size.get() {
            Some(size) => Some(size as u32),
            None => None,
        };
        BencodeDictIter::new(
            self.buf,
            self.root_tokens,
            self.token_idx + 1,
            size,
            Ghost(self.token_idx as int),
        )
    }

    /// Returns true if the dictionary has no entries.
    pub fn is_empty(&self) -> (r: bool)
        ensures
            r == (self@.len() == 0),
    {
        self.len() == 0
    }
}

impl<'a, 't> Clone for BencodeDict<'a, 't> {
    /// A second handle on the same dictionary, which remembers what this
    /// one does.
    fn clone(&self) -> (r: Self)
        ensures
            r@ == self@,
            r.buffer() == self.buffer(),
            r.tokens() == self.tokens(),
            r.index() == self.index(),
    {
        proof {
            use_type_invariant(self);
        }
        BencodeDict {
            buf: self.buf,
            root_tokens: self.root_tokens,
            token_idx: self.token_idx,
            cached_lookup: InvCell::new(
                self.cached_lookup.get(),
                Ghost(self.cached_lookup.predicate()),
            ),
            cached_size: InvCell::new(self.cached_size.get(), Ghost(self.cached_size.predicate())),
        }
    }
}

impl<'a, 't> BencodeAny<'a, 't> {
    /// The value as a dictionary, if it is one.
    pub fn as_dict(&self) -> (r: Option<BencodeDict<'a, 't>>)
        ensures
            r.is_some() <==> self.kind() == TokenType::Dict,
            r matches Some(h) ==> h.buffer() == self.buffer() && h.tokens() == self.tokens()
                && h.index() == self.index() && self@ == Value::Dict(h@),
    {
        proof {
            use_type_invariant(self);
            if self.kind() == TokenType::Dict {
                lemma_dict_value(
                    self.buf@,
                    token_views(self.root_tokens@),
                    self.token_idx as int,
                );
            }
        }
        if self.node_type() != NodeType::Dict {
            return None;
        }
        let ghost t = token_views(self.root_tokens@);
        Some(
            BencodeDict {
                buf: self.buf,
                root_tokens: self.root_tokens,
                token_idx: self.token_idx,
                cached_lookup: InvCell::new(
                    None,
                    Ghost(LookupCache { tokens: t, container: self.token_idx as int, pairs: true }),
                ),
                cached_size: InvCell::new(
                    None,
                    Ghost(SizeCache { tokens: t, container: self.token_idx as int, pairs: true }),
                ),
            },
        )
    }
}

} // verus!
