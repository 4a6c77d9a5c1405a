//! A bounded history of the most recent tokens.

use vstd::prelude::*;

verus! {

/// The most recent tokens, oldest first, never more than a fixed number.
pub struct TokenBuffer {
    tokens: Vec<char>,
    max_length: usize,
}

/// A history after one more token: the token is appended, and the oldest
/// entry leaves where the history would exceed `max_length`.
pub open spec fn pushed(tokens: Seq<char>, max_length: nat, token: char) -> Seq<char> {
    if tokens.len() + 1 > max_length {
        tokens.push(token).drop_first()
    } else {
        tokens.push(token)
    }
}

impl TokenBuffer {
    #[verifier::type_invariant]
    spec fn inv(self) -> bool {
        self.tokens@.len() <= self.max_length
    }

    /// The tokens held, oldest first.
    pub closed spec fn view(&self) -> Seq<char> {
        self.tokens@
    }

    /// The most tokens that the buffer holds.
    pub closed spec fn capacity(&self) -> nat {
        self.max_length as nat
    }

    /// An empty buffer that holds up to `max_length` tokens.
    pub fn new(max_length: usize) -> (buffer: Self)
        ensures
            buffer@ == Seq::<char>::empty(),
            buffer.capacity() == max_length,
    {
        Self { tokens: Vec::new(), max_length }
    }

    /// Records `token` as the most recent one and forgets the oldest where
    /// the buffer is full.
    pub fn push(&mut self, token: char)
        ensures
            final(self)@ == pushed(old(self)@, old(self).capacity(), token),
            final(self).capacity() == old(self).capacity(),
            final(self)@.len() <= final(self).capacity(),
    {
        proof {
            use_type_invariant(&*self);
        }
        let mut tokens: Vec<char> = Vec::new();
        std::mem::swap(&mut tokens, &mut self.tokens);
        tokens.push(token);
        if tokens.len() > self.max_length {
            tokens.remove(0);
        }
        self.tokens = tokens;
    }

    /// Forgets every token.
    pub fn clear(&mut self)
        ensures
            final(self)@ == Seq::<char>::empty(),
            final(self).capacity() == old(self).capacity(),
    {
        self.tokens = Vec::new();
    }

    /// The tokens held, oldest first.
    pub fn tokens(&self) -> (tokens: &[char])
        ensures
            tokens@ == self@,
    {
        self.tokens.as_slice()
    }
}

} // verus!
