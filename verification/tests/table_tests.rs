use automate_refuse_de_nier::tools::ui::{layout, Area};
use automate_refuse_de_nier::tools::{DFAConfig, Outcome, TableError, DFA};

fn endings(list: &[(usize, &str)]) -> Vec<(usize, String)> {
    list.iter().map(|(state, name)| (*state, name.to_string())).collect()
}

#[test]
fn a_declared_table_becomes_an_automaton() {
    let dfa = DFA::from_table(
        3,
        vec![(0, 'a', 1), (1, 'b', 2), (2, 'a', 1), (0, 'a', 1), (1, 'a', 1)],
        endings(&[(2, "AB"), (1, "A"), (2, "Again")]),
    )
    .expect("the table is deterministic");
    assert_eq!(*dfa.start_state(), 0);
    assert_eq!(dfa.delta(&0, 'a'), Some(&1));
    assert_eq!(dfa.delta(&1, 'b'), Some(&2));
    assert_eq!(dfa.delta(&2, 'a'), Some(&1));
    assert_eq!(dfa.delta(&1, 'a'), Some(&1));
    assert_eq!(dfa.delta(&0, 'b'), None);
    assert_eq!(dfa.delta(&3, 'a'), None);
    assert_eq!(dfa.get_matches(&0), None);
    assert_eq!(dfa.get_matches(&1), Some(&vec!["A".to_string()]));
    assert_eq!(dfa.get_matches(&2), Some(&vec!["AB".to_string(), "Again".to_string()]));
    let config = DFAConfig { debug: false };
    let (state, outcome, found) = dfa.feed(&2, 'b', "[b]", &config);
    assert_eq!((state, outcome), (0, Outcome::Dropped));
    assert!(found.is_empty());
}

#[test]
fn a_key_with_two_targets_is_refused() {
    let error = DFA::from_table(4, vec![(0, 'a', 1), (1, 'b', 2), (0, 'a', 3), (1, 'b', 3)], vec![])
        .expect_err("the key (0, a) has two targets");
    assert_eq!(error, TableError::Conflict { state: 0, symbol: 'a', first: 1, second: 3 });
    assert_eq!(error.message(), "conflicting transitions from q0 on 'a': to q1 and to q3");
}

#[test]
fn an_unknown_state_is_refused() {
    let error = DFA::from_table(2, vec![(0, 'a', 1), (1, 'b', 2)], vec![]).unwrap_err();
    assert_eq!(error, TableError::UnknownState { state: 2 });
    assert_eq!(error.message(), "unknown state q2");
    assert_eq!(
        DFA::from_table(2, vec![(5, 'a', 7)], vec![]).unwrap_err(),
        TableError::UnknownState { state: 5 }
    );
    assert_eq!(
        DFA::from_table(2, vec![(0, 'a', 1)], endings(&[(1, "A"), (12, "B")])).unwrap_err(),
        TableError::UnknownState { state: 12 }
    );
    assert_eq!(
        DFA::from_table(0, vec![], vec![]).unwrap_err(),
        TableError::UnknownState { state: 0 }
    );
}

#[test]
fn the_first_fault_of_a_table_is_told() {
    assert_eq!(
        DFA::from_table(2, vec![(0, 'a', 1), (0, 'a', 0), (9, 'a', 1)], endings(&[(4, "X")]))
            .unwrap_err(),
        TableError::Conflict { state: 0, symbol: 'a', first: 1, second: 0 }
    );
    assert_eq!(
        DFA::from_table(2, vec![(0, 'a', 9), (0, 'a', 0), (0, 'a', 1)], vec![]).unwrap_err(),
        TableError::UnknownState { state: 9 }
    );
}

#[test]
fn a_table_of_one_state_has_no_transitions() {
    let dfa = DFA::from_table(1, vec![], endings(&[(0, "Idle")])).unwrap();
    assert_eq!(dfa.delta(&0, 'a'), None);
    assert_eq!(dfa.get_matches(&0), Some(&vec!["Idle".to_string()]));
}

#[test]
fn the_window_is_laid_out() {
    let shown = layout(3);
    assert_eq!(shown.border, Area { x: 10, y: 10, width: 780, height: 580 });
    assert_eq!(shown.header, Area { x: 20, y: 20, width: 760, height: 60 });
    assert_eq!(shown.footer, Area { x: 20, y: 500, width: 760, height: 80 });
    assert_eq!(shown.rows.len(), 3);
    assert_eq!(shown.rows[2], Area { x: 30, y: 160, width: 740, height: 25 });
}
