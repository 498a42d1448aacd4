use vstd::prelude::*;

verus! {

/// The largest token index that a stack frame can record.
pub const MAX_FRAME_TOKEN: u32 = 0x7FFF_FFFF;

/// What an open dictionary expects next.
#[derive(Debug, Clone, Copy, PartialEq, Eq, Structural)]
pub enum StackFrameState {
    /// The next item is a key.
    Key,
    /// The next item is the value of the key just read.
    Value,
}

/// A stack frame as a plain pair.
pub struct StackFrameView {
    /// The index of the token that opened the container.
    pub token: nat,
    /// What the container expects next.
    pub state: StackFrameState,
}

/// The other state.
pub open spec fn toggled(state: StackFrameState) -> StackFrameState {
    match state {
        StackFrameState::Key => StackFrameState::Value,
        StackFrameState::Value => StackFrameState::Key,
    }
}

/// One container that the decoder has opened and not yet closed, packed
/// into 32 bits: the index of its opening token above, the state in the
/// lowest bit.
#[derive(Debug, Clone, Copy, PartialEq, Eq)]
pub struct StackFrame {
    inner: u32,
}

/// An index and a state packed into a word are read back as they were,
/// the index without its highest bit.
proof fn lemma_frame_pack(t: u32, s: u32)
    by (bit_vector)
    requires
        s <= 1,
    ensures
        ((((t << 1) | s) & 0xFFFF_FFFEu32) >> 1) == t % 0x8000_0000u32,
        (((t << 1) | s) & 1u32) == s,
{
}

/// Flipping the lowest bit of a word turns the state and keeps the index.
proof fn lemma_frame_toggle(x: u32)
    by (bit_vector)
    ensures
        (((x ^ 1u32) & 0xFFFF_FFFEu32) >> 1) == ((x & 0xFFFF_FFFEu32) >> 1),
        (x & 1u32) == 0 ==> ((x ^ 1u32) & 1u32) == 1,
        (x & 1u32) != 0 ==> ((x ^ 1u32) & 1u32) == 0,
        ((x & 0xFFFF_FFFEu32) >> 1) <= 0x7FFF_FFFFu32,
{
}

impl View for StackFrame {
    type V = StackFrameView;

    /// The index and the state that the word holds.
    closed spec fn view(&self) -> StackFrameView {
        StackFrameView {
            token: ((self.inner & 0xFFFF_FFFEu32) >> 1) as nat,
            state: if (self.inner & 1u32) == 0 {
                StackFrameState::Key
            } else {
                StackFrameState::Value
            },
        }
    }
}

impl StackFrame {
    /// A frame for the container opened by the token at index `token`. The
    /// frame keeps the lowest 31 bits of the index.
    pub fn new(token: u32, state: StackFrameState) -> (r: StackFrame)
        ensures
            r@.token == token % 0x8000_0000,
            r@.state == state,
    {
        let bit: u32 = match state {
            StackFrameState::Key => 0,
            StackFrameState::Value => 1,
        };
        proof {
            lemma_frame_pack(token, bit);
        }
        StackFrame { inner: (token << 1) | bit }
    }

    /// The index of the token that opened the container.
    pub fn token(&self) -> (r: usize)
        ensures
            r == self@.token,
            r <= MAX_FRAME_TOKEN,
    {
        proof {
            lemma_frame_toggle(self.inner);
        }
        let token_u32: u32 = (self.inner & 0xFFFF_FFFEu32) >> 1;
        token_u32 as usize
    }

    /// What the container expects next.
    pub fn state(&self) -> (r: StackFrameState)
        ensures
            r == self@.state,
    {
        if (self.inner & 1u32) == 0 {
            StackFrameState::Key
        } else {
            StackFrameState::Value
        }
    }

    /// Turns a frame that expects a key into one that expects a value, and
    /// back; the token index stays.
    pub fn toggle_state(&mut self)
        ensures
            final(self)@.token == old(self)@.token,
            final(self)@.state == toggled(old(self)@.state),
    {
        proof {
            lemma_frame_toggle(self.inner);
        }
        self.inner = self.inner ^ 1u32;
    }
}

} // verus!
