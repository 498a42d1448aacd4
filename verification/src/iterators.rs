use vstd::prelude::*;
use crate::decode::token_views;
use crate::layout::describes;
use crate::node::BencodeAny;
use crate::token::{Token, TokenType, TokenView};
use crate::tree::{
    children,
    is_node,
    lemma_child_next,
    lemma_children,
    lemma_children_count,
    lemma_offsets_ascend,
    string_bytes,
};
use crate::value::{dict_entries, lemma_dict_value, lemma_list_value, list_values, Value};

verus! {

/// Whether a walk over the items of the container at `container` that has
/// passed `passed` of them stands at token `token`: at the next item, or
/// behind the last at the closing token.
pub open spec fn walk_at(t: Seq<TokenView>, container: int, passed: int, token: int) -> bool {
    &&& 0 <= passed <= children(t, container).len()
    &&& 0 <= token < t.len()
    &&& passed < children(t, container).len() ==> children(t, container)[passed] == token
    &&& passed == children(t, container).len() ==> t[token].kind == TokenType::End
}

/// A walk over the items of a list, from the first to the last.
#[derive(Clone, Copy)]
pub struct BencodeListIter<'a, 't> {
    buf: &'a [u8],
    root_tokens: &'t [Token],
    /// The token that the walk has come to.
    token_idx: usize,
    /// The number of items that `next` has returned.
    num_traversed: u32,
    /// The length of the list, where it was known when the walk began.
    precalculated_size: Option<u32>,
    /// The index of the list's token.
    container: Ghost<int>,
}

impl<'a, 't> View for BencodeListIter<'a, 't> {
    type V = Seq<Value>;

    /// The items still to come, as trees.
    open spec fn view(&self) -> Seq<Value> {
        list_values(self.buffer(), self.tokens(), self.list_index()).skip(self.passed())
    }
}

impl<'a, 't> BencodeListIter<'a, 't> {
    /// The walk stands at an item of a list inside a decoded buffer, or
    /// at its closing token, and has counted the items before.
    #[verifier::type_invariant]
    closed spec fn well_formed(&self) -> bool {
        let t = token_views(self.root_tokens@);
        &&& describes(self.buf@, t)
        &&& is_node(t, self.container@)
        &&& t[self.container@].kind == TokenType::List
        &&& walk_at(t, self.container@, self.num_traversed as int, self.token_idx as int)
        &&& self.precalculated_size matches Some(size) ==> size == children(
            t,
            self.container@,
        ).len()
    }

    /// The bytes of the decoded buffer.
    pub closed spec fn buffer(&self) -> Seq<u8> {
        self.buf@
    }

    /// The tokens of the decoded buffer.
    pub closed spec fn tokens(&self) -> Seq<TokenView> {
        token_views(self.root_tokens@)
    }

    /// The index of the token that opens the list.
    pub closed spec fn list_index(&self) -> int {
        self.container@
    }

    /// The number of items that the walk has passed.
    pub closed spec fn passed(&self) -> int {
        self.num_traversed as int
    }

    /// Whether the length of the list was known when the walk began.
    pub closed spec fn knows_size(&self) -> bool {
        self.precalculated_size.is_some()
    }

    /// The indices of the tokens of all items of the list.
    pub open spec fn items(&self) -> Seq<int> {
        children(self.tokens(), self.list_index())
    }

    /// The indices of the tokens of the items still to come.
    pub open spec fn remaining(&self) -> Seq<int> {
        self.items().skip(self.passed())
    }

    /// A walk over the list at `container` that stands at its first item.
    pub(crate) fn new(
        buf: &'a [u8],
        root_tokens: &'t [Token],
        token_idx: usize,
        precalculated_size: Option<u32>,
        container: Ghost<int>,
    ) -> (r: Self)
        requires
            describes(buf@, token_views(root_tokens@)),
            is_node(token_views(root_tokens@), container@),
            token_views(root_tokens@)[container@].kind == TokenType::List,
            walk_at(token_views(root_tokens@), container@, 0, token_idx as int),
            precalculated_size matches Some(size) ==> size == children(
                token_views(root_tokens@),
                container@,
            ).len(),
        ensures
            r.buffer() == buf@,
            r.tokens() == token_views(root_tokens@),
            r.list_index() == container@,
            r.passed() == 0,
            r.knows_size() == precalculated_size.is_some(),
    {
        Self { buf, root_tokens, token_idx, num_traversed: 0, precalculated_size, container }
    }

    /// A handle on the item that the walk stands at.
    fn create_any_at_current_pos(&self) -> (r: BencodeAny<'a, 't>)
        requires
            self.passed() < self.items().len(),
        ensures
            r.buffer() == self.buffer(),
            r.tokens() == self.tokens(),
            r.index() == self.items()[self.passed()],
    {
        proof {
            use_type_invariant(self);
            lemma_child_next(
                token_views(self.root_tokens@),
                self.container@,
                self.num_traversed as int,
            );
        }
        BencodeAny::at(self.buf, self.root_tokens, self.token_idx)
    }

    /// Returns the next item of the list and steps behind it, or returns
    /// `None` behind the last item.
    pub fn next(&mut self) -> (r: Option<BencodeAny<'a, 't>>)
        ensures
            r.is_some() <==> old(self)@.len() > 0,
            r matches Some(item) ==> item@ == old(self)@[0] && final(self)@ == old(self)@.skip(1),
            r.is_none() ==> final(self)@ == old(self)@,
            final(self).buffer() == old(self).buffer(),
            final(self).tokens() == old(self).tokens(),
            final(self).list_index() == old(self).list_index(),
            final(self).knows_size() == old(self).knows_size(),
            old(self)@.len() == old(self).remaining().len(),
            r matches Some(item) ==> {
                &&& item.buffer() == old(self).buffer()
                &&& item.tokens() == old(self).tokens()
                &&& item.index() == old(self).remaining()[0]
                &&& final(self).passed() == old(self).passed() + 1
            },
            r.is_none() ==> final(self).passed() == old(self).passed(),
    {
        proof {
            use_type_invariant(&*self);
        }
        let ghost t = token_views(self.root_tokens@);
        let ghost passed = self.num_traversed as int;
        proof {
            lemma_list_value(self.buf@, t, self.container@);
            lemma_children_count(t, self.container@);
            lemma_offsets_ascend(self.buf@, t, 0, t.len() - 1);
            self.root_tokens@[t.len() - 1].lemma_bounds();
            if passed < children(t, self.container@).len() {
                lemma_child_next(t, self.container@, passed);
                if passed + 1 < children(t, self.container@).len() {
                    lemma_child_next(t, self.container@, passed + 1);
                }
            }
        }
        if self.root_tokens[self.token_idx].token_type() == TokenType::End {
            None
        } else {
            let result = self.create_any_at_current_pos();
            *self =
            BencodeListIter {
                buf: self.buf,
                root_tokens: self.root_tokens,
                token_idx: self.token_idx + self.root_tokens[self.token_idx].next_item(),
                num_traversed: self.num_traversed + 1,
                precalculated_size: self.precalculated_size,
                container: self.container,
            };
            assert(self@ =~= old(self)@.skip(1));
            Some(result)
        }
    }

    /// The least and the greatest number of items that the walk may still
    /// return, as far as known: where the length of the list was known as
    /// the walk began, the number of items to come and the length of the
    /// list; else nothing and no bound.
    pub fn size_hint(&self) -> (r: (usize, Option<usize>))
        ensures
            self.knows_size() ==> r.0 == self@.len() && r.1 == Some(
                (self.passed() + self@.len()) as usize,
            ),
            !self.knows_size() ==> r.0 == 0 && r.1.is_none(),
    {
        proof {
            use_type_invariant(self);
            lemma_list_value(self.buf@, token_views(self.root_tokens@), self.container@);
        }
        match self.precalculated_size {
            Some(size) => ((size - self.num_traversed) as usize, Some(size as usize)),
            None => (0, None),
        }
    }
}

/// A walk over the entries of a dictionary, from the first to the last.
#[derive(Clone, Copy)]
pub struct BencodeDictIter<'a, 't> {
    buf: &'a [u8],
    root_tokens: &'t [Token],
    /// The token that the walk has come to.
    token_idx: usize,
    /// The number of entries that `next` has returned.
    num_traversed: u32,
    /// The length of the dictionary, where it was known when the walk
    /// began.
    precalculated_size: Option<u32>,
    /// The index of the dictionary's token.
    container: Ghost<int>,
}

impl<'a, 't> View for BencodeDictIter<'a, 't> {
    type V = Seq<(Seq<u8>, Value)>;

    /// The entries still to come, each a key and the tree of its value.
    open spec fn view(&self) -> Seq<(Seq<u8>, Value)> {
        dict_entries(self.buffer(), self.tokens(), self.dict_index()).skip(self.passed())
    }
}

impl<'a, 't> BencodeDictIter<'a, 't> {
    /// The walk stands at a key of a dictionary inside a decoded buffer,
    /// or at its closing token, and has counted the entries before.
    #[verifier::type_invariant]
    closed spec fn well_formed(&self) -> bool {
        let t = token_views(self.root_tokens@);
        &&& describes(self.buf@, t)
        &&& is_node(t, self.container@)
        &&& t[self.container@].kind == TokenType::Dict
        &&& walk_at(t, self.container@, 2 * self.num_traversed, self.token_idx as int)
        &&& self.precalculated_size matches Some(size) ==> 2 * size == children(
            t,
            self.container@,
        ).len()
    }

    /// The bytes of the decoded buffer.
    pub closed spec fn buffer(&self) -> Seq<u8> {
        self.buf@
    }

    /// The tokens of the decoded buffer.
    pub closed spec fn tokens(&self) -> Seq<TokenView> {
        token_views(self.root_tokens@)
    }

    /// The index of the token that opens the dictionary.
    pub closed spec fn dict_index(&self) -> int {
        self.container@
    }

    /// The number of entries that the walk has passed.
    pub closed spec fn passed(&self) -> int {
        self.num_traversed as int
    }

    /// Whether the length of the dictionary was known when the walk began.
    pub closed spec fn knows_size(&self) -> bool {
        self.precalculated_size.is_some()
    }

    /// The indices of the tokens of all keys and values of the dictionary,
    /// key and value in turn.
    pub open spec fn items(&self) -> Seq<int> {
        children(self.tokens(), self.dict_index())
    }

    /// The number of entries of the dictionary.
    pub open spec fn spec_len(&self) -> int {
        self.items().len() as int / 2
    }

    /// A walk over the dictionary at `container` that stands at its first
    /// entry.
    pub(crate) fn new(
        buf: &'a [u8],
        root_tokens: &'t [Token],
        token_idx: usize,
        precalculated_size: Option<u32>,
        container: Ghost<int>,
    ) -> (r: Self)
        requires
            describes(buf@, token_views(root_tokens@)),
            is_node(token_views(root_tokens@), container@),
            token_views(root_tokens@)[container@].kind == TokenType::Dict,
            walk_at(token_views(root_tokens@), container@, 0, token_idx as int),
            precalculated_size matches Some(size) ==> 2 * size == children(
                token_views(root_tokens@),
                container@,
            ).len(),
        ensures
            r.buffer() == buf@,
            r.tokens() == token_views(root_tokens@),
            r.dict_index() == container@,
            r.passed() == 0,
            r.knows_size() == precalculated_size.is_some(),
    {
        Self { buf, root_tokens, token_idx, num_traversed: 0, precalculated_size, container }
    }

    /// A handle on the value whose token is at `index`.
    fn create_any(&self, index: usize) -> (r: BencodeAny<'a, 't>)
        requires
            is_node(self.tokens(), index as int),
        ensures
            r.buffer() == self.buffer(),
            r.tokens() == self.tokens(),
            r.index() == index,
    {
        proof {
            use_type_invariant(self);
        }
        BencodeAny::at(self.buf, self.root_tokens, index)
    }

    /// Returns the next entry of the dictionary, its key and its value, and
    /// steps behind it, or returns `None` behind the last entry.
    pub fn next(&mut self) -> (r: Option<(&'a [u8], BencodeAny<'a, 't>)>)
        ensures
            r.is_some() <==> old(self)@.len() > 0,
            r matches Some(entry) ==> (entry.0@, entry.1@) == old(self)@[0] && final(self)@ == old(
                self,
            )@.skip(1),
            r.is_none() ==> final(self)@ == old(self)@,
            final(self).buffer() == old(self).buffer(),
            final(self).tokens() == old(self).tokens(),
            final(self).dict_index() == old(self).dict_index(),
            final(self).knows_size() == old(self).knows_size(),
            old(self)@.len() == old(self).spec_len() - old(self).passed(),
            r matches Some(entry) ==> {
                &&& entry.0@ == string_bytes(
                    old(self).buffer(),
                    old(self).tokens(),
                    old(self).items()[2 * old(self).passed()],
                )
                &&& entry.1.buffer() == old(self).buffer()
                &&& entry.1.tokens() == old(self).tokens()
                &&& entry.1.index() == old(self).items()[2 * old(self).passed() + 1]
                &&& final(self).passed() == old(self).passed() + 1
            },
            r.is_none() ==> final(self).passed() == old(self).passed(),
    {
        proof {
            use_type_invariant(&*self);
            lemma_dict_value(self.buf@, token_views(self.root_tokens@), self.container@);
        }
        let ghost t = token_views(self.root_tokens@);
        let ghost passed = 2 * self.num_traversed;
        proof {
            lemma_children(t, self.container@);
            lemma_children_count(t, self.container@);
            lemma_offsets_ascend(self.buf@, t, 0, t.len() - 1);
            self.root_tokens@[t.len() - 1].lemma_bounds();
            if passed < children(t, self.container@).len() {
                lemma_child_next(t, self.container@, passed);
                lemma_child_next(t, self.container@, passed + 1);
                if passed + 2 < children(t, self.container@).len() {
                    lemma_child_next(t, self.container@, passed + 2);
                }
            }
        }
        if self.root_tokens[self.token_idx].token_type() == TokenType::End {
            None
        } else {
            let key_node = self.create_any(self.token_idx);
            // a key is always a string
            let key = key_node.as_string().unwrap().as_bytes();
            let value_token = self.token_idx + self.root_tokens[self.token_idx].next_item();
            let value_node = self.create_any(value_token);
            *self =
            BencodeDictIter {
                buf: self.buf,
                root_tokens: self.root_tokens,
                token_idx: value_token + self.root_tokens[value_token].next_item(),
                num_traversed: self.num_traversed + 1,
                precalculated_size: self.precalculated_size,
                container: self.container,
            };
            assert(self@ =~= old(self)@.skip(1));
            Some((key, value_node))
        }
    }

    /// The least and the greatest number of entries that the walk may still
    /// return, as far as known: where the length of the dictionary was
    /// known as the walk began, the number of entries to come and the length
    /// of the dictionary; else nothing and no bound.
    pub fn size_hint(&self) -> (r: (usize, Option<usize>))
        ensures
            self.knows_size() ==> r.0 == self@.len() && r.1 == Some(
                (self.passed() + self@.len()) as usize,
            ),
            !self.knows_size() ==> r.0 == 0 && r.1.is_none(),
    {
        proof {
            use_type_invariant(self);
            let t = token_views(self.root_tokens@);
            lemma_dict_value(self.buf@, t, self.container@);
            lemma_children(t, self.container@);
        }
        match self.precalculated_size {
            Some(size) => ((size - self.num_traversed) as usize, Some(size as usize)),
            None => (0, None),
        }
    }
}

} // verus!
