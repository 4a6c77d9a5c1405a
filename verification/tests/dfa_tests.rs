use automate_refuse_de_nier::tools::{DFAConfig, Outcome, DFA};

fn quiet() -> DFAConfig {
    DFAConfig { debug: false }
}

fn moves(list: &[(&str, &str)]) -> Vec<(Vec<char>, String)> {
    list.iter()
        .map(|(keys, name)| (keys.chars().collect(), name.to_string()))
        .collect()
}

fn names(list: &[&str]) -> Vec<String> {
    list.iter().map(|name| name.to_string()).collect()
}

/// Feeds `word` from the start state without any reset.
fn run(dfa: &DFA, word: &str) -> Option<usize> {
    let mut state = *dfa.start_state();
    for symbol in word.chars() {
        state = *dfa.delta(&state, symbol)?;
    }
    Some(state)
}

#[test]
fn shared_prefix_uses_one_state() {
    let dfa = DFA::from_moves(moves(&[("ab", "M1"), ("ac", "M2")]));
    let start = *dfa.start_state();
    let after_a = *dfa.delta(&start, 'a').expect("a leaves the start state");
    let after_b = *dfa.delta(&after_a, 'b').expect("b follows a");
    let after_c = *dfa.delta(&after_a, 'c').expect("c follows a");
    assert_ne!(after_b, after_c);
    assert_ne!(after_a, after_b);
    assert_ne!(after_a, after_c);
    assert_ne!(after_a, start);
    assert_eq!(dfa.get_matches(&after_b), Some(&names(&["M1"])));
    assert_eq!(dfa.get_matches(&after_c), Some(&names(&["M2"])));
    assert_eq!(dfa.get_matches(&after_a), None);
    assert_eq!(dfa.delta(&start, 'b'), None);
    assert_eq!(dfa.delta(&start, 'c'), None);
    assert_eq!(dfa.delta(&after_b, 'a'), None);
}

#[test]
fn states_are_numbered_as_they_are_made() {
    let dfa = DFA::from_moves(moves(&[("ab", "M1"), ("ac", "M2")]));
    assert_eq!(*dfa.start_state(), 0);
    assert_eq!(run(&dfa, "a"), Some(1));
    assert_eq!(run(&dfa, "ab"), Some(2));
    assert_eq!(run(&dfa, "ac"), Some(3));
}

#[test]
fn every_key_has_one_target() {
    let dfa = DFA::from_moves(moves(&[("ab", "M1"), ("ab", "M1 again"), ("abc", "M3")]));
    let start = *dfa.start_state();
    for _ in 0..3 {
        assert_eq!(dfa.delta(&start, 'a'), Some(&1));
        assert_eq!(dfa.delta(&1, 'b'), Some(&2));
        assert_eq!(dfa.delta(&2, 'c'), Some(&3));
    }
    assert_eq!(dfa.delta(&3, 'c'), None);
    assert_eq!(dfa.delta(&4, 'a'), None);
}

#[test]
fn the_sequence_of_a_move_completes_it() {
    let list = [("a", "A"), ("ab", "AB"), ("abc", "ABC"), ("bc", "BC"), ("ddd", "DDD")];
    let dfa = DFA::from_moves(moves(&list));
    for (keys, name) in list {
        let end = run(&dfa, keys).expect("the sequence of a move can be fed");
        let found = dfa.get_matches(&end).expect("a move ends here");
        assert!(found.contains(&name.to_string()));
    }
}

#[test]
fn moves_with_one_sequence_share_their_state() {
    let dfa = DFA::from_moves(moves(&[("xy", "First"), ("x", "Short"), ("xy", "Second")]));
    let end = run(&dfa, "xy").expect("xy can be fed");
    assert_eq!(dfa.get_matches(&end), Some(&names(&["First", "Second"])));
    let short = run(&dfa, "x").expect("x can be fed");
    assert_eq!(dfa.get_matches(&short), Some(&names(&["Short"])));
}

#[test]
fn a_prefix_is_no_completion() {
    let dfa = DFA::from_moves(moves(&[("abc", "ABC"), ("abd", "ABD")]));
    let start = *dfa.start_state();
    assert_eq!(dfa.get_matches(&start), None);
    assert_eq!(dfa.get_matches(&run(&dfa, "a").unwrap()), None);
    assert_eq!(dfa.get_matches(&run(&dfa, "ab").unwrap()), None);
    assert_eq!(dfa.get_matches(&77), None);
    let (next, found) = dfa.step(&start, 'a', "[a]", &quiet());
    assert!(next.is_some());
    assert!(found.is_empty());
}

#[test]
fn an_empty_sequence_ends_at_the_start_state() {
    let dfa = DFA::from_moves(moves(&[("", "Idle"), ("a", "A")]));
    let start = *dfa.start_state();
    assert_eq!(dfa.get_matches(&start), Some(&names(&["Idle"])));
    assert_eq!(run(&dfa, "a"), Some(1));
    assert_eq!(dfa.get_matches(&1), Some(&names(&["A"])));
}

#[test]
fn combos_are_reported_as_they_complete() {
    let dfa = DFA::from_moves(moves(&[("a", "A"), ("ab", "AB"), ("abc", "ABC"), ("bc", "BC")]));
    let config = quiet();
    let mut state = *dfa.start_state();

    let (next, found) = dfa.step(&state, 'a', "[a]", &config);
    assert_eq!(found, names(&["A"]).as_slice());
    state = *next.expect("a is a transition");

    let (next, found) = dfa.step(&state, 'b', "[b]", &config);
    assert_eq!(found, names(&["AB"]).as_slice());
    state = *next.expect("b is a transition");

    let (next, found) = dfa.step(&state, 'c', "[c]", &config);
    assert_eq!(found, names(&["ABC"]).as_slice());
    state = *next.expect("c is a transition");

    let (next, found) = dfa.step(&state, 'x', "[x]", &config);
    assert_eq!(next, None);
    assert!(found.is_empty());
    state = *dfa.start_state();
    let (next, found) = dfa.step(&state, 'x', "[x]", &config);
    assert_eq!(next, None);
    assert!(found.is_empty());
    assert_eq!(state, *dfa.start_state());
}

#[test]
fn feeding_follows_the_reset_policy() {
    let dfa = DFA::from_moves(moves(&[("a", "A"), ("ab", "AB"), ("abc", "ABC"), ("bc", "BC")]));
    let config = quiet();
    let start = *dfa.start_state();

    let (state, outcome, found) = dfa.feed(&start, 'a', "[a]", &config);
    assert_eq!(outcome, Outcome::Advanced);
    assert_eq!(found, names(&["A"]).as_slice());
    let (state, outcome, found) = dfa.feed(&state, 'b', "[b]", &config);
    assert_eq!(outcome, Outcome::Advanced);
    assert_eq!(found, names(&["AB"]).as_slice());
    let (state, outcome, found) = dfa.feed(&state, 'c', "[c]", &config);
    assert_eq!(outcome, Outcome::Advanced);
    assert_eq!(found, names(&["ABC"]).as_slice());
    let after_abc = state;

    let (state, outcome, found) = dfa.feed(&after_abc, 'x', "[x]", &config);
    assert_eq!(state, start);
    assert_eq!(outcome, Outcome::Dropped);
    assert!(found.is_empty());

    let (state, outcome, found) = dfa.feed(&after_abc, 'a', "[a]", &config);
    assert_eq!(outcome, Outcome::Restarted);
    assert_eq!(found, names(&["A"]).as_slice());
    assert_eq!(Some(state), run(&dfa, "a"));
}

#[test]
fn a_reset_gives_what_a_fresh_run_gives() {
    let dfa = DFA::from_moves(moves(&[("a", "A"), ("ab", "AB"), ("b", "B"), ("bc", "BC")]));
    let config = quiet();
    let start = *dfa.start_state();
    for word in ["a", "ab", "b", "bc"] {
        let from = run(&dfa, word).unwrap();
        for symbol in ['a', 'b', 'c', 'x'] {
            if dfa.delta(&from, symbol).is_none() {
                let (state, _, found) = dfa.feed(&from, symbol, "", &config);
                let (fresh_state, _, fresh_found) = dfa.feed(&start, symbol, "", &config);
                assert_eq!(state, fresh_state);
                assert_eq!(found, fresh_found);
                let (next, first) = dfa.step(&start, symbol, "", &config);
                assert_eq!(state, next.copied().unwrap_or(start));
                assert_eq!(found, first);
            }
        }
    }
}

#[test]
fn no_moves_give_a_lone_start_state() {
    let dfa = DFA::from_moves(Vec::new());
    let start = *dfa.start_state();
    assert_eq!(start, 0);
    assert_eq!(dfa.get_matches(&start), None);
    for symbol in ['a', 'b', 'z', '0', ' ', '\u{e9}'] {
        assert_eq!(dfa.delta(&start, symbol), None);
        let (next, found) = dfa.step(&start, symbol, "?", &quiet());
        assert_eq!(next, None);
        assert!(found.is_empty());
        let (state, outcome, found) = dfa.feed(&start, symbol, "?", &quiet());
        assert_eq!(state, start);
        assert_eq!(outcome, Outcome::Dropped);
        assert!(found.is_empty());
    }
    assert_eq!(dfa.delta(&1, 'a'), None);
}

#[test]
fn the_label_and_the_configuration_do_not_change_a_step() {
    let dfa = DFA::from_moves(moves(&[("a", "A")]));
    let start = *dfa.start_state();
    let loud = DFAConfig { debug: true };
    assert_eq!(dfa.step(&start, 'a', "[a]", &quiet()), dfa.step(&start, 'a', "other", &loud));
    assert_eq!(dfa.step(&start, 'b', "[b]", &quiet()), dfa.step(&start, 'b', "", &loud));
}

#[test]
fn the_trace_names_states_and_moves() {
    let dfa = DFA::from_moves(moves(&[("a", "A"), ("a", "Jab"), ("ab", "AB")]));
    let start = *dfa.start_state();
    let loud = DFAConfig { debug: true };
    assert_eq!(
        dfa.trace(&start, 'a', "[a]", &loud),
        names(&[
            "State q0, \"[a]\" -> State q1",
            "Found end state for \"A\" at: q1",
            "Found end state for \"Jab\" at: q1",
        ])
    );
    assert_eq!(dfa.trace(&1, 'b', "[b]", &loud), names(&[
        "State q1, \"[b]\" -> State q2",
        "Found end state for \"AB\" at: q2",
    ]));
    assert_eq!(
        dfa.trace(&2, 'z', "Punch", &loud),
        names(&["State q2, \"Punch\" -> <no transition>"])
    );
    assert!(dfa.trace(&start, 'a', "[a]", &quiet()).is_empty());
}

#[test]
fn the_trace_writes_long_state_numbers() {
    let word: String = "abcdefghijklmnopqrstuvwxyz".repeat(5);
    let dfa = DFA::from_moves(vec![(word.chars().collect(), "Long".to_string())]);
    let loud = DFAConfig { debug: true };
    assert_eq!(dfa.trace(&9, 'j', "j", &loud), names(&["State q9, \"j\" -> State q10"]));
    assert_eq!(dfa.trace(&99, 'v', "v", &loud), names(&["State q99, \"v\" -> State q100"]));
    assert_eq!(
        dfa.trace(&129, 'z', "z", &loud),
        names(&["State q129, \"z\" -> State q130", "Found end state for \"Long\" at: q130"])
    );
}

#[test]
fn the_default_configuration_is_quiet() {
    assert!(!DFAConfig::default().debug);
}

#[test]
fn the_order_of_the_moves_only_renames_states() {
    let list = [("a", "A"), ("ab", "AB"), ("abc", "ABC"), ("bc", "BC"), ("ab", "Twin")];
    let mut turned = list;
    turned.reverse();
    let one = DFA::from_moves(moves(&list));
    let other = DFA::from_moves(moves(&turned));
    for word in ["", "a", "ab", "abc", "b", "bc", "c", "ba", "abcd", "bb"] {
        let here = run(&one, word);
        let there = run(&other, word);
        assert_eq!(here.is_some(), there.is_some());
        if let (Some(p), Some(q)) = (here, there) {
            let mut first = one.get_matches(&p).cloned().unwrap_or_default();
            let mut second = other.get_matches(&q).cloned().unwrap_or_default();
            first.sort();
            second.sort();
            assert_eq!(first, second);
        }
    }
    assert_eq!(run(&one, "bc"), Some(5));
    assert_eq!(run(&other, "bc"), Some(4));
    assert_eq!(one.delta(&6, 'a'), None);
    assert_eq!(other.delta(&6, 'a'), None);
}
