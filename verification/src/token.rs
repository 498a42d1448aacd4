use vstd::prelude::*;
use crate::error::BdecodeError;

verus! {

/// The largest byte offset that a token can record.
pub const MAX_OFFSET: usize = 0x1FFF_FFFF;

/// The largest distance to the next sibling that a token can record.
pub const MAX_NEXT_ITEM: usize = 0x1FFF_FFFF;

/// The largest header length that a token can record.
pub const MAX_HEADER: usize = 7;

/// The 29 bits of the offset.
const OFFSET_MASK: u64 = 0xFFFF_FFF8_0000_0000;

/// The 29 bits of the distance to the next sibling.
const NEXT_ITEM_MASK: u64 = 0x0000_0007_FFFF_FFC0;

/// The 3 bits of the header length.
const HEADER_MASK: u64 = 0x0000_0000_0000_0038;

/// The 3 bits of the kind.
const TYPE_MASK: u64 = 0x0000_0000_0000_0007;

/// What a token stands for.
#[derive(Debug, Clone, Copy, PartialEq, Eq, Structural)]
pub enum TokenType {
    /// The opening of a dictionary.
    Dict,
    /// The opening of a list.
    List,
    /// A byte string.
    Str,
    /// An integer.
    Int,
    /// The close of a container, or the end of the token array.
    End,
}

/// The four fields of a token as plain values.
pub struct TokenView {
    /// The byte at which the node begins.
    pub offset: nat,
    /// What the node is.
    pub kind: TokenType,
    /// How many tokens lie between this one and its next sibling, this one
    /// counted.
    pub next_item: nat,
    /// For a string, the number of bytes before its payload.
    pub header: nat,
}

/// The kind stored under `code`; codes that stand for nothing read as `End`.
pub open spec fn kind_of_code(code: u64) -> TokenType {
    if code == 1 {
        TokenType::Dict
    } else if code == 2 {
        TokenType::List
    } else if code == 3 {
        TokenType::Str
    } else if code == 4 {
        TokenType::Int
    } else {
        TokenType::End
    }
}

/// One parsed node, packed into 64 bits: 29 bits of offset, 29 bits of
/// distance to the next sibling, 3 bits of header length, 3 bits of kind.
#[derive(Debug, Clone, Copy, PartialEq, Eq)]
pub struct Token {
    inner: u64,
}

/// Fields packed into a word are read back as they were.
proof fn lemma_pack(o: u64, n: u64, h: u64, c: u64)
    by (bit_vector)
    requires
        o <= 0x1FFF_FFFF,
        n <= 0x1FFF_FFFF,
        h <= 7,
        c <= 7,
    ensures
        (((o << 35) | (n << 6) | (h << 3) | c) & 0xFFFF_FFF8_0000_0000) >> 35 == o,
        (((o << 35) | (n << 6) | (h << 3) | c) & 0x0000_0007_FFFF_FFC0) >> 6 == n,
        (((o << 35) | (n << 6) | (h << 3) | c) & 0x0000_0000_0000_0038) >> 3 == h,
        (((o << 35) | (n << 6) | (h << 3) | c) & 0x0000_0000_0000_0007) == c,
{
}

/// Replacing the distance to the next sibling in a word leaves the other
/// fields as they were.
proof fn lemma_repack(x: u64, n: u64)
    by (bit_vector)
    requires
        n <= 0x1FFF_FFFF,
    ensures
        ((((x & !0x0000_0007_FFFF_FFC0u64) | (n << 6)) & 0xFFFF_FFF8_0000_0000) >> 35) == ((x
            & 0xFFFF_FFF8_0000_0000) >> 35),
        ((((x & !0x0000_0007_FFFF_FFC0u64) | (n << 6)) & 0x0000_0007_FFFF_FFC0) >> 6) == n,
        ((((x & !0x0000_0007_FFFF_FFC0u64) | (n << 6)) & 0x0000_0000_0000_0038) >> 3) == ((x
            & 0x0000_0000_0000_0038) >> 3),
        (((x & !0x0000_0007_FFFF_FFC0u64) | (n << 6)) & 0x0000_0000_0000_0007) == (x
            & 0x0000_0000_0000_0007),
{
}

/// Every field of a word lies within the width of its place.
proof fn lemma_field_bounds(x: u64)
    by (bit_vector)
    ensures
        ((x & 0xFFFF_FFF8_0000_0000) >> 35) <= 0x1FFF_FFFF,
        ((x & 0x0000_0007_FFFF_FFC0) >> 6) <= 0x1FFF_FFFF,
        ((x & 0x0000_0000_0000_0038) >> 3) <= 7,
        (x & 0x0000_0000_0000_0007) <= 7,
{
}

impl View for Token {
    type V = TokenView;

    /// The fields that the word holds.
    closed spec fn view(&self) -> TokenView {
        TokenView {
            offset: ((self.inner & OFFSET_MASK) >> 35) as nat,
            kind: kind_of_code(self.inner & TYPE_MASK),
            next_item: ((self.inner & NEXT_ITEM_MASK) >> 6) as nat,
            header: ((self.inner & HEADER_MASK) >> 3) as nat,
        }
    }
}

impl Token {
    /// The bits of the kind hold one of the five kinds.
    #[verifier::type_invariant]
    closed spec fn well_formed(&self) -> bool {
        1 <= (self.inner & TYPE_MASK) <= 5
    }

    /// Every field of a token lies within the width it is stored in.
    pub proof fn lemma_bounds(&self)
        ensures
            self@.offset <= MAX_OFFSET,
            self@.next_item <= MAX_NEXT_ITEM,
            self@.header <= MAX_HEADER,
    {
        lemma_field_bounds(self.inner);
    }

    /// Packs the four fields into a token, or refuses with `LimitExceeded`
    /// when one of them is wider than its place.
    pub fn new(offset: usize, token_type: TokenType, next_item: usize, header: usize) -> (r:
        Result<Token, BdecodeError>)
        ensures
            (offset > MAX_OFFSET || next_item > MAX_NEXT_ITEM || header > MAX_HEADER) ==> r
                == Err::<Token, BdecodeError>(BdecodeError::LimitExceeded),
            (offset <= MAX_OFFSET && next_item <= MAX_NEXT_ITEM && header <= MAX_HEADER)
                ==> r.is_ok() && r.unwrap()@ == (TokenView {
                offset: offset as nat,
                kind: token_type,
                next_item: next_item as nat,
                header: header as nat,
            }),
    {
        if (offset > MAX_OFFSET) || (next_item > MAX_NEXT_ITEM) || (header > MAX_HEADER) {
            return Err(BdecodeError::LimitExceeded);
        }
        let code: u64 = match token_type {
            TokenType::Dict => 1,
            TokenType::List => 2,
            TokenType::Str => 3,
            TokenType::Int => 4,
            TokenType::End => 5,
        };
        let o: u64 = offset as u64;
        let n: u64 = next_item as u64;
        let h: u64 = header as u64;
        let inner: u64 = (o << 35) | (n << 6) | (h << 3) | code;
        proof {
            lemma_pack(o, n, h, code);
        }
        Ok(Token { inner })
    }

    /// The byte of the buffer at which the node begins.
    pub fn offset(&self) -> (r: usize)
        ensures
            r == self@.offset,
            r <= MAX_OFFSET,
    {
        proof {
            lemma_field_bounds(self.inner);
        }
        ((self.inner & OFFSET_MASK) >> 35) as usize
    }

    /// The number of tokens to step over to reach the next sibling: for a
    /// key of a dictionary its value, for a value the next key or the
    /// closing token. The distance is relative to this token.
    pub fn next_item(&self) -> (r: usize)
        ensures
            r == self@.next_item,
            r <= MAX_NEXT_ITEM,
    {
        proof {
            lemma_field_bounds(self.inner);
        }
        ((self.inner & NEXT_ITEM_MASK) >> 6) as usize
    }

    /// Replaces the distance to the next sibling and leaves the other
    /// fields as they are; a distance too wide for its place is refused and
    /// nothing changes.
    pub fn set_next_item(&mut self, new_next_item: usize) -> (r: Result<(), BdecodeError>)
        ensures
            new_next_item > MAX_NEXT_ITEM ==> r == Err::<(), BdecodeError>(
                BdecodeError::LimitExceeded,
            ) && *final(self) == *old(self),
            new_next_item <= MAX_NEXT_ITEM ==> r == Ok::<(), BdecodeError>(()) && final(self)@ == (
            TokenView { next_item: new_next_item as nat, ..old(self)@ }),
    {
        if new_next_item > MAX_NEXT_ITEM {
            return Err(BdecodeError::LimitExceeded);
        }
        proof {
            use_type_invariant(&*self);
            lemma_repack(self.inner, new_next_item as u64);
        }
        let inner_zeroed_ni: u64 = self.inner & (!NEXT_ITEM_MASK);
        self.inner = inner_zeroed_ni | ((new_next_item as u64) << 6);
        Ok(())
    }

    /// For a string, the number of bytes from the offset to the first byte
    /// of the payload: the digits of the length and the colon. Other kinds
    /// do not use the field.
    pub fn header(&self) -> (r: usize)
        ensures
            r == self@.header,
            r <= MAX_HEADER,
    {
        proof {
            lemma_field_bounds(self.inner);
        }
        ((self.inner & HEADER_MASK) >> 3) as usize
    }

    /// What the token stands for.
    pub fn token_type(&self) -> (r: TokenType)
        ensures
            r == self@.kind,
    {
        proof {
            use_type_invariant(self);
        }
        let type_int: u64 = self.inner & TYPE_MASK;
        if type_int == 1 {
            TokenType::Dict
        } else if type_int == 2 {
            TokenType::List
        } else if type_int == 3 {
            TokenType::Str
        } else if type_int == 4 {
            TokenType::Int
        } else {
            TokenType::End
        }
    }
}

} // verus!
