//! Grammars: the key mappings and the move definitions of a game, and the
//! text format that describes them.

use crate::tools::dfa::{moves_view, MoveList};
use crate::tools::dfa::names_of;
use crate::tools::keys::{keys_in_order, lemma_keys_in_order, lists_keys, sorted_keys};
use crate::tools::text::{
    append_char, append_decimal, char_of, decimal, find, find_char, is_char_code, lines,
    pieces, to_chars, trim, trim_span, word_spans, words,
};
use std::collections::BTreeMap;
use vstd::prelude::*;

verus! {

broadcast use vstd::laws_cmp::group_laws_cmp;

/// A move of the grammar: its name and the keys that perform it, in order.
#[derive(Debug, Clone, PartialEq, Eq)]
pub struct MoveDef {
    pub name: String,
    pub sequence: Vec<char>,
}

/// A parsed grammar: which key gives which token, and the moves.
#[derive(Debug, Clone, PartialEq, Eq)]
pub struct Grammar {
    /// Token names by key; a key is filed under its code point.
    pub mappings: BTreeMap<u32, String>,
    /// The moves, in the order of their definition.
    pub moves: Vec<MoveDef>,
}

/// A grammar as plain data: the token names by the code points of their
/// keys, and the moves, each as its key sequence and its name.
pub struct GrammarModel {
    pub mappings: Map<u32, Seq<char>>,
    pub moves: MoveList,
}

/// Why a text is no grammar.
#[derive(Debug, Clone, PartialEq, Eq)]
pub enum GrammarError {
    /// What stands before the comma of a mapping is not a single key.
    Key { line: usize },
    /// A move lists a token that is not a single key.
    Token { line: usize, token: String },
    /// The line is neither a mapping nor a move.
    Line { line: usize, text: String },
}

/// A `GrammarError` as plain data.
pub enum Fault {
    Key { line: nat },
    Token { line: nat, token: Seq<char> },
    Line { line: nat, text: Seq<char> },
}

impl View for GrammarError {
    type V = Fault;

    open spec fn view(&self) -> Fault {
        match self {
            GrammarError::Key { line } => Fault::Key { line: *line as nat },
            GrammarError::Token { line, token } => Fault::Token {
                line: *line as nat,
                token: token@,
            },
            GrammarError::Line { line, text } => Fault::Line { line: *line as nat, text: text@ },
        }
    }
}

/// The character that stands for the key filed under `code`: the character
/// with that code, or U+FFFD where no character has it.
pub open spec fn shown_key(code: u32) -> char {
    if is_char_code(code) {
        code as char
    } else {
        '\u{FFFD}'
    }
}

/// The characters that stand for the keys of `mappings`, in the order of
/// the keys.
pub open spec fn shown_keys(mappings: Map<u32, Seq<char>>) -> Seq<char> {
    let keys = keys_in_order(mappings);
    Seq::new(keys.len(), |i: int| shown_key(keys[i]))
}

/// The line that shows one mapping: the key, an arrow, the token's name.
pub open spec fn mapping_line(code: u32, name: Seq<char>) -> Seq<char> {
    seq![shown_key(code)] + " -> "@ + name
}

/// The lines that show the mappings of a grammar: a heading, a line for each
/// mapping in the order of the keys, and a rule.
pub open spec fn mapping_lines(mappings: Map<u32, Seq<char>>) -> Seq<Seq<char>> {
    let keys = keys_in_order(mappings);
    seq!["Key mappings:"@] + Seq::new(
        keys.len(),
        |i: int| mapping_line(keys[i], mappings[keys[i]]),
    ) + seq!["----------------------"@]
}

/// The character that stands for the key filed under `code`.
fn key_shown(code: u32) -> (shown: char)
    ensures
        shown == shown_key(code),
{
    match char_of(code) {
        Some(c) => c,
        None => '\u{FFFD}',
    }
}

/// The message of a fault: the number of the line, and what is wrong with it.
pub open spec fn message_text(fault: Fault) -> Seq<char> {
    match fault {
        Fault::Key { line } => decimal(line) + ": left side must be a single char key"@,
        Fault::Token { line, token } => decimal(line)
            + ": move token must be a single character key: '"@ + token + "'"@,
        Fault::Line { line, text } => decimal(line) + ": unrecognized line: '"@ + text + "'"@,
    }
}

/// The report of a fault in the grammar file `file`: the file, the line and
/// what is wrong with it.
pub open spec fn report_text(file: Seq<char>, fault: Fault) -> Seq<char> {
    file + ": "@ + message_text(fault)
}

impl GrammarError {
    /// The error in words, for the user.
    pub fn message(&self) -> (text: String)
        ensures
            text@ == message_text(self@),
    {
        let mut text = String::new();
        match self {
            GrammarError::Key { line } => {
                append_decimal(&mut text, *line);
                text.append(": left side must be a single char key");
            },
            GrammarError::Token { line, token } => {
                append_decimal(&mut text, *line);
                text.append(": move token must be a single character key: '");
                text.append(token.as_str());
                text.append("'");
            },
            GrammarError::Line { line, text: found } => {
                append_decimal(&mut text, *line);
                text.append(": unrecognized line: '");
                text.append(found.as_str());
                text.append("'");
            },
        }
        proof {
            assert(text@ =~= message_text(self@));
        }
        text
    }

    /// The error as it is reported for the grammar file `file`: the name of
    /// the file, then the message.
    pub fn report(&self, file: &str) -> (text: String)
        ensures
            text@ == report_text(file@, self@),
    {
        let mut text = String::new();
        text.append(file);
        text.append(": ");
        let message = self.message();
        text.append(message.as_str());
        proof {
            assert(text@ =~= report_text(file@, self@));
        }
        text
    }
}

/// A key is written as one character.
pub open spec fn is_key(word: Seq<char>) -> bool {
    word.len() == 1
}

/// The first of `tokens` that is not a key, if there is one.
pub open spec fn first_wide(tokens: Seq<Seq<char>>) -> Option<Seq<char>>
    decreases tokens.len(),
{
    if tokens.len() == 0 {
        None
    } else if !is_key(tokens[0]) {
        Some(tokens[0])
    } else {
        first_wide(tokens.drop_first())
    }
}

/// The keys that `tokens` spell, one for each.
pub open spec fn keys_of(tokens: Seq<Seq<char>>) -> Seq<char> {
    Seq::new(tokens.len(), |k: int| tokens[k][0])
}

/// The grammar `g` after the line `raw`, which is line `number` of its text.
/// White space around the line and around its parts does not count. An
/// empty line and one that starts with `#` change nothing. A line with a
/// comma maps the key before the first comma to the token name after it. A
/// line with a colon, and no comma, defines the move named before the first
/// colon by the keys after it, which white space separates. Any other line
/// must consist of a key and a token name.
pub open spec fn with_line(g: GrammarModel, raw: Seq<char>, number: nat) -> Result<
    GrammarModel,
    Fault,
> {
    let line = trim(raw);
    let comma = find(line, ',');
    let colon = find(line, ':');
    if line.len() == 0 || line[0] == '#' {
        Ok(g)
    } else if comma < line.len() {
        let key = trim(line.take(comma));
        if is_key(key) {
            Ok(
                GrammarModel {
                    mappings: g.mappings.insert(key[0] as u32, trim(line.skip(comma + 1))),
                    moves: g.moves,
                },
            )
        } else {
            Err(Fault::Key { line: number })
        }
    } else if colon < line.len() {
        let tokens = words(line.skip(colon + 1));
        match first_wide(tokens) {
            Some(token) => Err(Fault::Token { line: number, token }),
            None => Ok(
                GrammarModel {
                    mappings: g.mappings,
                    moves: g.moves.push((keys_of(tokens), trim(line.take(colon)))),
                },
            ),
        }
    } else {
        let parts = words(line);
        if parts.len() == 2 && is_key(parts[0]) {
            Ok(
                GrammarModel {
                    mappings: g.mappings.insert(parts[0][0] as u32, parts[1]),
                    moves: g.moves,
                },
            )
        } else {
            Err(Fault::Line { line: number, text: line })
        }
    }
}

/// The grammar that the lines `all` describe, read from the first line on,
/// or the fault of the first line that has one. Lines count from 1.
pub open spec fn read_lines(all: Seq<Seq<char>>) -> Result<GrammarModel, Fault>
    decreases all.len(),
{
    if all.len() == 0 {
        Ok(GrammarModel { mappings: Map::empty(), moves: Seq::empty() })
    } else {
        match read_lines(all.drop_last()) {
            Ok(g) => with_line(g, all.last(), all.len()),
            Err(fault) => Err(fault),
        }
    }
}

impl Grammar {
    /// The grammar as plain data.
    pub open spec fn model(&self) -> GrammarModel {
        GrammarModel {
            mappings: self.mappings@.map_values(|name: String| name@),
            moves: Seq::new(
                self.moves@.len(),
                |i: int| (self.moves@[i].sequence@, self.moves@[i].name@),
            ),
        }
    }

    /// The name of the token that `key` gives, if the grammar maps the key.
    pub open spec fn token_for(&self, key: char) -> Option<Seq<char>> {
        if self.mappings@.contains_key(key as u32) {
            Some(self.mappings@[key as u32]@)
        } else {
            None
        }
    }

    /// A grammar without mappings and without moves.
    pub fn new() -> (grammar: Self)
        ensures
            grammar.mappings@ == Map::<u32, String>::empty(),
            grammar.moves@ == Seq::<MoveDef>::empty(),
    {
        Self { mappings: BTreeMap::new(), moves: Vec::new() }
    }

    /// Maps `key` to the token `name`, in place of what it gave before.
    pub fn map_key(&mut self, key: char, name: String)
        ensures
            final(self).mappings@ == old(self).mappings@.insert(key as u32, name),
            final(self).moves == old(self).moves,
    {
        self.mappings.insert(key as u32, name);
    }

    /// The moves as the automaton's builder takes them: each as its key
    /// sequence and its name, in the order of their definition.
    pub fn move_data(&self) -> (data: Vec<(Vec<char>, String)>)
        ensures
            moves_view(data@) == self.model().moves,
    {
        let mut data: Vec<(Vec<char>, String)> = Vec::new();
        let mut i: usize = 0;
        while i < self.moves.len()
            invariant
                i <= self.moves@.len(),
                data@.len() == i,
                forall|j: int|
                    0 <= j < i ==> (#[trigger] data@[j]).0@ == self.moves@[j].sequence@
                        && data@[j].1@ == self.moves@[j].name@,
            decreases self.moves@.len() - i,
        {
            let definition = &self.moves[i];
            let mut sequence: Vec<char> = Vec::new();
            let mut k: usize = 0;
            while k < definition.sequence.len()
                invariant
                    k <= definition.sequence@.len(),
                    sequence@ == definition.sequence@.take(k as int),
                decreases definition.sequence@.len() - k,
            {
                sequence.push(definition.sequence[k]);
                proof {
                    assert(sequence@ =~= definition.sequence@.take(k + 1));
                }
                k += 1;
            }
            proof {
                assert(definition.sequence@.take(k as int) =~= definition.sequence@);
            }
            data.push((sequence, definition.name.clone()));
            i += 1;
        }
        proof {
            assert(moves_view(data@) =~= self.model().moves);
        }
        data
    }

    /// The keys that the grammar maps, in their order.
    pub fn keys(&self) -> (keys: Vec<char>)
        ensures
            keys@ == shown_keys(self.model().mappings),
    {
        let codes = sorted_keys(&self.mappings);
        proof {
            self.lemma_model_keys(codes@);
        }
        let mut keys: Vec<char> = Vec::new();
        let mut i: usize = 0;
        while i < codes.len()
            invariant
                i <= codes@.len(),
                keys@.len() == i,
                forall|j: int| 0 <= j < i ==> keys@[j] == shown_key(codes@[j]),
            decreases codes@.len() - i,
        {
            keys.push(key_shown(codes[i]));
            i += 1;
        }
        proof {
            assert(keys@ =~= shown_keys(self.model().mappings));
        }
        keys
    }

    /// The lines that show the key mappings: a heading, a line `key -> name`
    /// for each mapping in the order of the keys, and a rule of dashes.
    pub fn key_mapping_lines(&self) -> (shown: Vec<String>)
        ensures
            names_of(shown@) == mapping_lines(self.model().mappings),
    {
        let codes = sorted_keys(&self.mappings);
        proof {
            self.lemma_model_keys(codes@);
        }
        let mut shown: Vec<String> = Vec::new();
        let mut heading = String::new();
        heading.append("Key mappings:");
        shown.push(heading);
        let mut i: usize = 0;
        while i < codes.len()
            invariant
                i <= codes@.len(),
                lists_keys(codes@, self.mappings@),
                shown@.len() == i + 1,
                shown@[0]@ == "Key mappings:"@,
                forall|j: int|
                    0 <= j < i ==> (#[trigger] shown@[j + 1])@ == mapping_line(
                        codes@[j],
                        self.mappings@[codes@[j]]@,
                    ),
            decreases codes@.len() - i,
        {
            let code = codes[i];
            let mut line = String::new();
            append_char(&mut line, key_shown(code));
            line.append(" -> ");
            proof {
                assert(codes@.contains(codes@[i as int]));
            }
            match self.mappings.get(&code) {
                Some(name) => {
                    line.append(name.as_str());
                },
                None => {},
            }
            proof {
                assert(line@ =~= mapping_line(code, self.mappings@[code]@));
            }
            shown.push(line);
            i += 1;
        }
        let mut rule = String::new();
        rule.append("----------------------");
        shown.push(rule);
        proof {
            let wanted = mapping_lines(self.model().mappings);
            assert(wanted.len() == shown@.len());
            assert forall|k: int| 0 <= k < wanted.len() implies names_of(shown@)[k]
                == wanted[k] by {
                if 0 < k < wanted.len() - 1 {
                    assert(shown@[(k - 1) + 1]@ == mapping_line(
                        codes@[k - 1],
                        self.mappings@[codes@[k - 1]]@,
                    ));
                    assert(codes@.contains(codes@[k - 1]));
                }
            }
            assert(names_of(shown@) =~= wanted);
        }
        shown
    }

    /// The keys of the grammar are those of its model.
    proof fn lemma_model_keys(&self, codes: Seq<u32>)
        requires
            lists_keys(codes, self.mappings@),
        ensures
            codes == keys_in_order(self.model().mappings),
    {
        assert(self.model().mappings.dom() =~= self.mappings@.dom());
        lemma_keys_in_order(codes, self.model().mappings);
    }

    /// The name of the token that `key` gives, if the grammar maps the key.
    pub fn get_token_for_key(&self, key: char) -> (token: Option<&str>)
        ensures
            match token {
                Some(name) => self.token_for(key) == Some(name@),
                None => self.token_for(key) is None,
            },
    {
        match self.mappings.get(&(key as u32)) {
            Some(name) => Some(name.as_str()),
            None => None,
        }
    }
}

/// The piece `chars[from..to]` of `text` as a string of its own.
fn piece(text: &str, from: usize, to: usize) -> (copy: String)
    requires
        from <= to <= text@.len(),
    ensures
        copy@ == text@.subrange(from as int, to as int),
{
    text.substring_char(from, to).to_owned()
}

/// Reads the line `chars[from..to]` of `text` into `grammar`.
#[verifier::loop_isolation(false)]
fn read_line(
    grammar: &mut Grammar,
    text: &str,
    chars: &Vec<char>,
    from: usize,
    to: usize,
    number: usize,
) -> (result: Result<(), GrammarError>)
    requires
        chars@ == text@,
        from <= to <= chars@.len(),
    ensures
        match with_line(
            old(grammar).model(),
            chars@.subrange(from as int, to as int),
            number as nat,
        ) {
            Ok(model) => result is Ok && final(grammar).model() == model,
            Err(fault) => result matches Err(error) && error@ == fault,
        },
{
    let ghost before = grammar.model();
    let (a, b) = trim_span(chars, from, to);
    let ghost line = chars@.subrange(a as int, b as int);
    if a == b || chars[a] == '#' {
        return Ok(());
    }
    let comma = find_char(chars, a, b, ',');
    if comma < b {
        let (ka, kb) = trim_span(chars, a, comma);
        let (na, nb) = trim_span(chars, comma + 1, b);
        proof {
            assert(line.take(comma - a) =~= chars@.subrange(a as int, comma as int));
            assert(line.skip(comma - a + 1) =~= chars@.subrange(comma + 1, b as int));
        }
        if kb - ka != 1 {
            return Err(GrammarError::Key { line: number });
        }
        let name = piece(text, na, nb);
        grammar.map_key(chars[ka], name);
        proof {
            assert(grammar.model().mappings =~= before.mappings.insert(
                chars@[ka as int] as u32,
                name@,
            ));
            assert(grammar.model().moves =~= before.moves);
        }
        return Ok(());
    }
    let colon = find_char(chars, a, b, ':');
    if colon < b {
        let (na, nb) = trim_span(chars, a, colon);
        let spans = word_spans(chars, colon + 1, b);
        let ghost tokens = pieces(chars@, spans@);
        proof {
            assert(line.take(colon - a) =~= chars@.subrange(a as int, colon as int));
            assert(line.skip(colon - a + 1) =~= chars@.subrange(colon + 1, b as int));
        }
        let mut sequence: Vec<char> = Vec::new();
        let mut k: usize = 0;
        proof {
            assert(tokens.skip(0) =~= tokens);
        }
        while k < spans.len()
            invariant
                k <= spans@.len(),
                chars@ == text@,
                tokens == pieces(chars@, spans@),
                forall|j: int|
                    0 <= j < spans@.len() ==> colon + 1 <= (#[trigger] spans@[j]).0 < spans@[j].1
                        <= b,
                b <= chars@.len(),
                first_wide(tokens) == first_wide(tokens.skip(k as int)),
                sequence@ == keys_of(tokens.take(k as int)),
            decreases spans@.len() - k,
        {
            let (ta, tb) = spans[k];
            proof {
                assert(tokens[k as int] == chars@.subrange(ta as int, tb as int));
                assert(tokens.skip(k as int).drop_first() =~= tokens.skip(k + 1));
                assert(tokens.skip(k as int)[0] == tokens[k as int]);
            }
            if tb - ta != 1 {
                let token = piece(text, ta, tb);
                proof {
                    assert(!is_key(tokens[k as int]));
                    assert(first_wide(tokens.skip(k as int)) == Some(tokens[k as int]));
                }
                return Err(GrammarError::Token { line: number, token });
            }
            sequence.push(chars[ta]);
            proof {
                assert(sequence@ =~= keys_of(tokens.take(k + 1)));
            }
            k += 1;
        }
        let name = piece(text, na, nb);
        proof {
            assert(tokens.take(k as int) =~= tokens);
            assert(tokens.skip(k as int) =~= Seq::<Seq<char>>::empty());
        }
        grammar.moves.push(MoveDef { name, sequence });
        proof {
            assert(grammar.model().moves =~= before.moves.push((keys_of(tokens), name@)));
            assert(grammar.model().mappings =~= before.mappings);
        }
        return Ok(());
    }
    let spans = word_spans(chars, a, b);
    let ghost parts = pieces(chars@, spans@);
    if spans.len() == 2 {
        let (ka, kb) = spans[0];
        let (na, nb) = spans[1];
        proof {
            assert(parts[0] == chars@.subrange(ka as int, kb as int));
            assert(parts[1] == chars@.subrange(na as int, nb as int));
        }
        if kb - ka == 1 {
            let name = piece(text, na, nb);
            grammar.map_key(chars[ka], name);
            proof {
                assert(grammar.model().mappings =~= before.mappings.insert(
                    chars@[ka as int] as u32,
                    name@,
                ));
                assert(grammar.model().moves =~= before.moves);
            }
            return Ok(());
        }
    }
    let text_of_line = piece(text, a, b);
    Err(GrammarError::Line { line: number, text: text_of_line })
}

/// Reads a grammar from its text. Each line of the text that is not empty
/// and does not start with `#` is a mapping, `key, Name`, or a move
/// definition, `Name: k k k`, whose tokens are keys; a line of two words of
/// which the first is a key is taken as a mapping too. The first line that
/// is none of these makes the text fail, with the number of that line.
pub fn parse_grammar(contents: &str) -> (result: Result<Grammar, GrammarError>)
    ensures
        match read_lines(lines(contents@)) {
            Ok(model) => result matches Ok(grammar) && grammar.model() == model,
            Err(fault) => result matches Err(error) && error@ == fault,
        },
{
    let chars = to_chars(contents);
    let mut grammar = Grammar::new();
    let mut start: usize = 0;
    let mut count: usize = 0;
    let ghost mut done: Seq<Seq<char>> = Seq::empty();
    proof {
        assert(chars@.skip(0) =~= chars@);
        assert(grammar.model().mappings =~= Map::<u32, Seq<char>>::empty());
        assert(grammar.model().moves =~= Seq::<(Seq<char>, Seq<char>)>::empty());
    }
    while start < chars.len()
        invariant
            chars@ == contents@,
            start <= chars@.len(),
            count == done.len(),
            count <= start,
            lines(chars@) == done + lines(chars@.skip(start as int)),
            read_lines(done) == Ok::<GrammarModel, Fault>(grammar.model()),
        decreases chars@.len() - start,
    {
        let end = find_char(&chars, start, chars.len(), '\n');
        let ghost rest = chars@.skip(start as int);
        let ghost line = chars@.subrange(start as int, end as int);
        proof {
            assert(rest =~= chars@.subrange(start as int, chars@.len() as int));
            assert(rest.take(end - start) =~= line);
            assert(done.push(line).drop_last() =~= done);
        }
        count += 1;
        match read_line(&mut grammar, contents, &chars, start, end, count) {
            Ok(()) => {},
            Err(error) => {
                proof {
                    lemma_fault_stays(done.push(line), lines(chars@));
                }
                return Err(error);
            },
        }
        proof {
            if end < chars@.len() {
                assert(rest.skip(end - start + 1) =~= chars@.skip(end + 1));
                assert(done.push(line) + lines(chars@.skip(end + 1)) =~= done + lines(rest));
            } else {
                assert(line =~= rest);
                assert(lines(chars@.skip(end as int)) =~= Seq::<Seq<char>>::empty());
                assert(done.push(line) + lines(chars@.skip(end as int)) =~= done + lines(rest));
            }
            done = done.push(line);
        }
        start = if end < chars.len() {
            end + 1
        } else {
            end
        };
    }
    proof {
        assert(done + lines(chars@.skip(start as int)) =~= done);
    }
    Ok(grammar)
}

/// A fault among the first lines is the fault of the whole text.
proof fn lemma_fault_stays(first: Seq<Seq<char>>, all: Seq<Seq<char>>)
    requires
        first.is_prefix_of(all),
        read_lines(first) is Err,
    ensures
        read_lines(all) == read_lines(first),
    decreases all.len(),
{
    if first.len() < all.len() {
        assert(first.is_prefix_of(all.drop_last()));
        lemma_fault_stays(first, all.drop_last());
    } else {
        assert(first =~= all);
    }
}

} // verus!
