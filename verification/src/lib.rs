//! A decoder for the bencode format: dictionaries, lists, integers and byte
//! strings. A buffer is validated once and turned into a flat array of tokens;
//! handles then walk that array without copying any payload.
//!
//! `bdecode` is the entry point. What it accepts is stated twice: `scan`
//! holds the decoder as a state machine on plain values, which says for every
//! buffer what is returned; `layout` says what it is for a token array to
//! describe a buffer. `progress` proves that the state machine ends with
//! nothing but a description, `complete` that it finds every description.
//! `tree` and `value` say what the handles of `node` and the walks of
//! `iterators` return, `purity` that what a handle remembers never shows.
//! `encode` holds the bencoding of a value as a function, and proves that
//! decoding undoes it; `roundtrip` does so for the integers by themselves.

pub mod bytes;
pub mod complete;
pub mod decode;
pub mod encode;
pub mod error;
pub mod iterators;
pub mod layout;
pub mod node;
pub mod parse_int;
pub mod progress;
pub mod purity;
pub mod roundtrip;
pub mod scan;
pub mod stack_frame;
pub mod token;
pub mod tree;
pub mod value;

pub use decode::{bdecode, Bencode};
pub use error::BdecodeError;
pub use iterators::{BencodeDictIter, BencodeListIter};
pub use node::{BencodeAny, BencodeDict, BencodeInt, BencodeList, BencodeString, NodeType};
