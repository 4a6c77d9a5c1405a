//! From keyboard events to tokens.

use crate::tools::parsing::Grammar;
use crate::tools::text::{to_chars, trim, trim_span};
use vstd::prelude::*;

verus! {

/// What an event of the input source means to the recogniser.
#[derive(Debug, Clone, PartialEq, Eq)]
pub enum InputEvent {
    /// A key that the grammar maps to a token.
    Token(char),
    /// The user wants to quit.
    Quit,
    /// Anything else; to be ignored.
    Invalid,
}

/// What the recogniser reads of a window event.
#[derive(Debug, Clone, Copy, PartialEq, Eq)]
pub enum KeyEvent {
    /// The window was asked to close.
    Quit,
    /// A key went down; its key code, where the key has one.
    KeyDown(Option<i32>),
    /// Any other event.
    Other,
}

/// The key code of the escape key.
pub const ESCAPE: i32 = 27;

/// The character of a key code: the lower-case letters and the digits stand
/// for themselves, no other key has a character.
pub open spec fn key_char(keycode: i32) -> Option<char> {
    if 'a' as i32 <= keycode <= 'z' as i32 || '0' as i32 <= keycode <= '9' as i32 {
        Some(keycode as u8 as char)
    } else {
        None
    }
}

/// What an event means under a grammar. A request to close the window and
/// the escape key mean quitting; a key whose character the grammar maps is a
/// token; everything else is ignored.
pub open spec fn event_meaning(event: KeyEvent, grammar: &Grammar) -> InputEvent {
    match event {
        KeyEvent::Quit => InputEvent::Quit,
        KeyEvent::KeyDown(Some(keycode)) => if keycode == ESCAPE {
            InputEvent::Quit
        } else {
            match key_char(keycode) {
                Some(ch) => if grammar.token_for(ch) is Some {
                    InputEvent::Token(ch)
                } else {
                    InputEvent::Invalid
                },
                None => InputEvent::Invalid,
            }
        },
        _ => InputEvent::Invalid,
    }
}

/// Translates a key code to the character of the token system.
pub fn keycode_to_char(keycode: i32) -> (ch: Option<char>)
    ensures
        ch == key_char(keycode),
{
    if (97 <= keycode && keycode <= 122) || (48 <= keycode && keycode <= 57) {
        Some(keycode as u8 as char)
    } else {
        None
    }
}

/// Decides what an event means under `grammar`.
pub fn process_event(event: KeyEvent, grammar: &Grammar) -> (meaning: InputEvent)
    ensures
        meaning == event_meaning(event, grammar),
{
    match event {
        KeyEvent::Quit => InputEvent::Quit,
        KeyEvent::KeyDown(Some(keycode)) => {
            if keycode == ESCAPE {
                return InputEvent::Quit;
            }
            if let Some(ch) = keycode_to_char(keycode) {
                if grammar.get_token_for_key(ch).is_some() {
                    return InputEvent::Token(ch);
                }
            }
            InputEvent::Invalid
        },
        _ => InputEvent::Invalid,
    }
}

/// What a line typed at the console asks for.
#[derive(Debug, Clone, PartialEq, Eq)]
pub enum ConsoleInput {
    /// To leave.
    Quit,
    /// To feed these keys, in order.
    Tokens(Vec<char>),
}

/// `c`, or its lower-case form where it is an upper-case letter of ASCII.
pub open spec fn lower(c: char) -> char {
    if 'A' <= c <= 'Z' {
        ((c as u8) + 32u8) as char
    } else {
        c
    }
}

/// `s` and `t` are the same but for the case of their ASCII letters.
pub open spec fn same_ignoring_case(s: Seq<char>, t: Seq<char>) -> bool {
    s.len() == t.len() && forall|i: int| 0 <= i < s.len() ==> lower(s[i]) == lower(t[i])
}

/// The line, white space around it aside, is `quit` or `exit`, in any case.
pub open spec fn asks_to_quit(line: Seq<char>) -> bool {
    same_ignoring_case(trim(line), "quit"@) || same_ignoring_case(trim(line), "exit"@)
}

/// The characters of `s` that are keys of the grammar, in order.
pub open spec fn mapped_keys(grammar: &Grammar, s: Seq<char>) -> Seq<char> {
    s.filter(|c: char| grammar.token_for(c) is Some)
}

/// `c`, or its lower-case form where it is an upper-case letter of ASCII.
fn to_lower(c: char) -> (small: char)
    ensures
        small == lower(c),
{
    if 'A' <= c && c <= 'Z' {
        ((c as u8) + 32u8) as char
    } else {
        c
    }
}

/// Whether `chars[from..to]` is `word` but for the case of ASCII letters.
fn is_word(chars: &Vec<char>, from: usize, to: usize, word: &str) -> (same: bool)
    requires
        from <= to <= chars@.len(),
    ensures
        same == same_ignoring_case(chars@.subrange(from as int, to as int), word@),
{
    let letters = to_chars(word);
    if letters.len() != to - from {
        return false;
    }
    let mut i: usize = 0;
    while i < letters.len()
        invariant
            from <= to <= chars@.len(),
            letters@ == word@,
            letters@.len() == to - from,
            i <= letters@.len(),
            forall|j: int|
                0 <= j < i ==> lower(chars@.subrange(from as int, to as int)[j]) == lower(
                    letters@[j],
                ),
        decreases letters@.len() - i,
    {
        if to_lower(chars[from + i]) != to_lower(letters[i]) {
            assert(chars@.subrange(from as int, to as int)[i as int] == chars@[from + i]);
            return false;
        }
        assert(chars@.subrange(from as int, to as int)[i as int] == chars@[from + i]);
        i += 1;
    }
    true
}

/// Reads a line typed at the console: a request to leave, or the keys of
/// the grammar among its characters.
pub fn read_console_line(line: &str, grammar: &Grammar) -> (input: ConsoleInput)
    ensures
        match input {
            ConsoleInput::Quit => asks_to_quit(line@),
            ConsoleInput::Tokens(keys) => !asks_to_quit(line@) && keys@ == mapped_keys(
                grammar,
                trim(line@),
            ),
        },
{
    let chars = to_chars(line);
    let (a, b) = trim_span(&chars, 0, chars.len());
    proof {
        assert(chars@.subrange(0, chars@.len() as int) =~= line@);
    }
    if is_word(&chars, a, b, "quit") || is_word(&chars, a, b, "exit") {
        return ConsoleInput::Quit;
    }
    let ghost body = chars@.subrange(a as int, b as int);
    let ghost wanted = |c: char| grammar.token_for(c) is Some;
    let mut keys: Vec<char> = Vec::new();
    let mut i: usize = a;
    proof {
        reveal(Seq::filter);
        assert(body.take(0) =~= Seq::<char>::empty());
    }
    while i < b
        invariant
            a <= i <= b <= chars@.len(),
            body == chars@.subrange(a as int, b as int),
            wanted == (|c: char| grammar.token_for(c) is Some),
            keys@ == body.take(i - a).filter(wanted),
        decreases b - i,
    {
        let c = chars[i];
        proof {
            reveal(Seq::filter);
            assert(body.take(i - a + 1).drop_last() =~= body.take(i - a));
            assert(body.take(i - a + 1).last() == c);
        }
        if grammar.get_token_for_key(c).is_some() {
            keys.push(c);
        }
        i += 1;
    }
    proof {
        assert(body.take(b - a) =~= body);
    }
    ConsoleInput::Tokens(keys)
}

} // verus!
