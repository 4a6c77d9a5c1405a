//! The automaton engine and the data types around it.

pub mod buffer;
pub mod dfa;
pub mod keycatcher;
pub mod keys;
pub mod parsing;
pub mod table;
pub mod text;
pub mod trace;
mod trie;
pub mod ui;

pub use dfa::{DFAConfig, Move, Outcome, State, Symbol, DFA};
pub use table::TableError;
pub use buffer::TokenBuffer;
pub use keycatcher::{read_console_line, ConsoleInput, InputEvent, KeyEvent};
pub use parsing::{parse_grammar, Grammar, GrammarError, MoveDef};
