//! Combo recognition for streams of input tokens: a deterministic automaton
//! built from named token sequences, and the protocol that feeds it one token
//! at a time.

pub mod tools;
