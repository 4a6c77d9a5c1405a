use automate_refuse_de_nier::tools::parsing::{parse_grammar, Grammar, GrammarError, MoveDef};

fn mapping(grammar: &Grammar, key: char) -> Option<&str> {
    grammar.get_token_for_key(key)
}

fn definition(name: &str, keys: &str) -> MoveDef {
    MoveDef { name: name.to_string(), sequence: keys.chars().collect() }
}

#[test]
fn parse_invalid_line_reports_format_error() {
    let err = parse_grammar("Invalid grammar line without separator\n")
        .expect_err("expected parse failure")
        .message();
    assert!(err.contains("unrecognized line"), "unexpected error message: {err}");
}

#[test]
fn a_new_grammar_is_empty() {
    let grammar = Grammar::new();
    assert!(grammar.mappings.is_empty());
    assert!(grammar.moves.is_empty());
    assert_eq!(grammar.get_token_for_key('a'), None);
}

#[test]
fn an_empty_text_is_an_empty_grammar() {
    assert_eq!(parse_grammar(""), Ok(Grammar::new()));
    assert_eq!(parse_grammar("\n\n   \n"), Ok(Grammar::new()));
    assert_eq!(parse_grammar("# only a comment"), Ok(Grammar::new()));
}

#[test]
fn mappings_are_read() {
    let grammar = parse_grammar("w, Up\ni, [BK]\n  s ,  Down  \r\n# note\n\nj,[FP]").unwrap();
    assert_eq!(mapping(&grammar, 'w'), Some("Up"));
    assert_eq!(mapping(&grammar, 'i'), Some("[BK]"));
    assert_eq!(mapping(&grammar, 's'), Some("Down"));
    assert_eq!(mapping(&grammar, 'j'), Some("[FP]"));
    assert_eq!(mapping(&grammar, 'x'), None);
    assert_eq!(grammar.mappings.len(), 4);
    assert!(grammar.moves.is_empty());
}

#[test]
fn a_later_mapping_replaces_an_earlier_one() {
    let grammar = parse_grammar("a, First\na, Second\n").unwrap();
    assert_eq!(mapping(&grammar, 'a'), Some("Second"));
    assert_eq!(grammar.mappings.len(), 1);
}

#[test]
fn the_name_of_a_token_may_hold_commas_and_colons() {
    let grammar = parse_grammar("a, Left, then: right").unwrap();
    assert_eq!(mapping(&grammar, 'a'), Some("Left, then: right"));
    let grammar = parse_grammar("Combo: a b, c").unwrap_err();
    assert_eq!(grammar, GrammarError::Key { line: 1 });
}

#[test]
fn moves_are_read_in_order() {
    let text = "a, Punch\nb, Kick\nUppercut: a b a\n  Sweep :b   b\t a \nIdle:\n";
    let grammar = parse_grammar(text).unwrap();
    assert_eq!(
        grammar.moves,
        vec![definition("Uppercut", "aba"), definition("Sweep", "bba"), definition("Idle", "")]
    );
    assert_eq!(
        grammar.move_data(),
        vec![
            (vec!['a', 'b', 'a'], "Uppercut".to_string()),
            (vec!['b', 'b', 'a'], "Sweep".to_string()),
            (vec![], "Idle".to_string()),
        ]
    );
}

#[test]
fn a_key_and_a_name_without_a_comma_are_a_mapping() {
    let grammar = parse_grammar("k Kick\n\tp\u{a0}Punch\n").unwrap();
    assert_eq!(mapping(&grammar, 'k'), Some("Kick"));
    assert_eq!(mapping(&grammar, 'p'), Some("Punch"));
}

#[test]
fn a_key_is_a_single_character() {
    assert_eq!(parse_grammar("a, A\nab, Wide\nb, B"), Err(GrammarError::Key { line: 2 }));
    assert_eq!(parse_grammar(", Nothing"), Err(GrammarError::Key { line: 1 }));
    assert_eq!(parse_grammar("\n\n\u{e9}\u{e8}, Accents"), Err(GrammarError::Key { line: 3 }));
    assert_eq!(
        parse_grammar("ab, Wide").unwrap_err().message(),
        "1: left side must be a single char key"
    );
}

#[test]
fn a_token_of_a_move_is_a_single_key() {
    let error = parse_grammar("# moves\nCombo: a bc d ef\n").unwrap_err();
    assert_eq!(error, GrammarError::Token { line: 2, token: "bc".to_string() });
    assert_eq!(error.message(), "2: move token must be a single character key: 'bc'");
    assert_eq!(
        parse_grammar("Combo: a \u{e9}\u{e9}"),
        Err(GrammarError::Token { line: 1, token: "\u{e9}\u{e9}".to_string() })
    );
}

#[test]
fn other_lines_are_refused() {
    let error = parse_grammar("a, A\n\n  one two three  \nb, B").unwrap_err();
    assert_eq!(error, GrammarError::Line { line: 3, text: "one two three".to_string() });
    assert_eq!(error.message(), "3: unrecognized line: 'one two three'");
    assert_eq!(
        parse_grammar("word"),
        Err(GrammarError::Line { line: 1, text: "word".to_string() })
    );
    assert_eq!(
        parse_grammar("ab Wide"),
        Err(GrammarError::Line { line: 1, text: "ab Wide".to_string() })
    );
}

#[test]
fn the_first_fault_is_reported() {
    assert_eq!(parse_grammar("ab, x\nnothing\n"), Err(GrammarError::Key { line: 1 }));
    assert_eq!(
        parse_grammar("nothing\nab, x\n"),
        Err(GrammarError::Line { line: 1, text: "nothing".to_string() })
    );
}

#[test]
fn line_numbers_have_all_their_digits() {
    let mut text = "\n".repeat(1233);
    text.push_str("oops");
    assert_eq!(parse_grammar(&text).unwrap_err().message(), "1234: unrecognized line: 'oops'");
}

#[test]
fn keys_can_be_mapped_by_hand() {
    let mut grammar = Grammar::new();
    grammar.map_key('a', "Punch".to_string());
    grammar.map_key('b', "Kick".to_string());
    grammar.map_key('a', "Jab".to_string());
    assert_eq!(grammar.get_token_for_key('a'), Some("Jab"));
    assert_eq!(grammar.get_token_for_key('b'), Some("Kick"));
    assert_eq!(grammar.get_token_for_key('c'), None);
}

#[test]
fn a_key_may_take_several_bytes() {
    let grammar = parse_grammar("\u{e9}, Special\n").unwrap();
    assert_eq!(mapping(&grammar, '\u{e9}'), Some("Special"));
    assert_eq!(grammar.mappings.len(), 1);
    assert!(grammar.moves.is_empty());

    let grammar = parse_grammar("\u{3042} Kana\nCombo: \u{e9} a \u{1f44a}\n").unwrap();
    assert_eq!(mapping(&grammar, '\u{3042}'), Some("Kana"));
    assert_eq!(grammar.moves, vec![definition("Combo", "\u{e9}a\u{1f44a}")]);
}

#[test]
fn a_report_names_the_file_and_the_line() {
    let error = parse_grammar("a, A\nCombo: a bc\n").unwrap_err();
    assert_eq!(
        error.report("grammars/mk9.gmr"),
        "grammars/mk9.gmr: 2: move token must be a single character key: 'bc'"
    );
    assert_eq!(
        GrammarError::Key { line: 7 }.report("x.gmr"),
        "x.gmr: 7: left side must be a single char key"
    );
    assert_eq!(
        GrammarError::Line { line: 10, text: "what".to_string() }.report(""),
        ": 10: unrecognized line: 'what'"
    );
}

#[test]
fn the_mappings_are_shown_in_the_order_of_the_keys() {
    let grammar = parse_grammar("w, Up\ni, [BK]\n\u{e9}, Special\na, Left\n7, Block\n").unwrap();
    assert_eq!(
        grammar.key_mapping_lines(),
        vec![
            "Key mappings:",
            "7 -> Block",
            "a -> Left",
            "i -> [BK]",
            "w -> Up",
            "\u{e9} -> Special",
            "----------------------",
        ]
    );
    assert_eq!(grammar.keys(), vec!['7', 'a', 'i', 'w', '\u{e9}']);
}

#[test]
fn a_grammar_without_mappings_shows_the_heading_and_the_rule() {
    let grammar = Grammar::new();
    assert_eq!(grammar.key_mapping_lines(), vec!["Key mappings:", "----------------------"]);
    assert_eq!(grammar.keys(), Vec::<char>::new());
}

#[test]
fn a_code_that_is_no_character_is_shown_as_a_replacement() {
    let mut grammar = Grammar::new();
    grammar.mappings.insert(0xD800, "Surrogate".to_string());
    grammar.mappings.insert(0x110000, "Beyond".to_string());
    grammar.mappings.insert(0x10FFFF, "Last".to_string());
    grammar.mappings.insert(0xE000, "Private".to_string());
    grammar.mappings.insert(0xD7FF, "Before".to_string());
    grammar.mappings.insert(0x62, "Kick".to_string());
    assert_eq!(
        grammar.key_mapping_lines(),
        vec![
            "Key mappings:",
            "b -> Kick",
            "\u{d7ff} -> Before",
            "\u{fffd} -> Surrogate",
            "\u{e000} -> Private",
            "\u{10ffff} -> Last",
            "\u{fffd} -> Beyond",
            "----------------------",
        ]
    );
    assert_eq!(
        grammar.keys(),
        vec!['b', '\u{d7ff}', '\u{fffd}', '\u{e000}', '\u{10ffff}', '\u{fffd}']
    );
}
