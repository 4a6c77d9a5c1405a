//! Automata that are declared by their table instead of being built from
//! moves. Such a table may be wrong: it is checked, and refused with its
//! first fault.

use crate::tools::dfa::{names_of, State, Symbol, DFA};
use crate::tools::text::append_char;
use crate::tools::trace::{append_state, state_name};
use crate::tools::trie::{has_edge, lemma_entry_added, table_ok, target};
use std::collections::BTreeMap;
use vstd::prelude::*;

verus! {

broadcast use {vstd::laws_cmp::group_laws_cmp, vstd::std_specs::btree::group_btree_axioms};

/// Why a declared table is no automaton.
#[derive(Debug, Clone, Copy, PartialEq, Eq, Structural)]
pub enum TableError {
    /// The key `(state, symbol)` is listed with two targets.
    Conflict { state: State, symbol: Symbol, first: State, second: State },
    /// A state is named that the automaton does not have.
    UnknownState { state: State },
}

/// The message of a table error: the key and both targets of a conflict,
/// or the state that is missing.
pub open spec fn table_message(error: TableError) -> Seq<char> {
    match error {
        TableError::Conflict { state, symbol, first, second } => "conflicting transitions from "@
            + state_name(state) + " on '"@.push(symbol) + "': to "@ + state_name(first)
            + " and to "@ + state_name(second),
        TableError::UnknownState { state } => "unknown state "@ + state_name(state),
    }
}

impl TableError {
    /// The error in words, for the user.
    pub fn message(&self) -> (text: String)
        ensures
            text@ == table_message(*self),
    {
        let mut text = String::new();
        match self {
            TableError::Conflict { state, symbol, first, second } => {
                text.append("conflicting transitions from ");
                append_state(&mut text, *state);
                text.append(" on '");
                append_char(&mut text, *symbol);
                text.append("': to ");
                append_state(&mut text, *first);
                text.append(" and to ");
                append_state(&mut text, *second);
            },
            TableError::UnknownState { state } => {
                text.append("unknown state ");
                append_state(&mut text, *state);
            },
        }
        proof {
            assert(text@ =~= table_message(*self));
        }
        text
    }
}

/// An entry among `earlier` has the key of `entry` and another target.
pub open spec fn clashes(
    earlier: Seq<(State, Symbol, State)>,
    entry: (State, Symbol, State),
    j: int,
) -> bool {
    0 <= j < earlier.len() && earlier[j].0 == entry.0 && earlier[j].1 == entry.1 && earlier[j].2
        != entry.2
}

/// What is wrong with `entry`, listed after `earlier`, in an automaton of
/// `states` states: its source or else its target is no state, or else its
/// key was listed before with another target.
pub open spec fn entry_fault(
    states: nat,
    earlier: Seq<(State, Symbol, State)>,
    entry: (State, Symbol, State),
) -> Option<TableError> {
    if entry.0 >= states {
        Some(TableError::UnknownState { state: entry.0 })
    } else if entry.2 >= states {
        Some(TableError::UnknownState { state: entry.2 })
    } else if exists|j: int| clashes(earlier, entry, j) {
        let j = choose|j: int| clashes(earlier, entry, j);
        Some(
            TableError::Conflict {
                state: entry.0,
                symbol: entry.1,
                first: earlier[j].2,
                second: entry.2,
            },
        )
    } else {
        None
    }
}

/// The fault of the first entry of `transitions` that has one.
pub open spec fn transitions_fault(states: nat, transitions: Seq<(State, Symbol, State)>) -> Option<
    TableError,
>
    decreases transitions.len(),
{
    if transitions.len() == 0 {
        None
    } else {
        match transitions_fault(states, transitions.drop_last()) {
            Some(fault) => Some(fault),
            None => entry_fault(states, transitions.drop_last(), transitions.last()),
        }
    }
}

/// The first of `endings` whose state is none of `states` states.
pub open spec fn endings_fault(states: nat, endings: Seq<(State, Seq<char>)>) -> Option<TableError>
    decreases endings.len(),
{
    if endings.len() == 0 {
        None
    } else {
        match endings_fault(states, endings.drop_last()) {
            Some(fault) => Some(fault),
            None => if endings.last().0 >= states {
                Some(TableError::UnknownState { state: endings.last().0 })
            } else {
                None
            },
        }
    }
}

/// What is wrong with a declared table, if anything: the start state is
/// missing, or else the first fault among the transitions, or else the first
/// among the endings.
pub open spec fn table_fault(
    states: nat,
    transitions: Seq<(State, Symbol, State)>,
    endings: Seq<(State, Seq<char>)>,
) -> Option<TableError> {
    if states == 0 {
        Some(TableError::UnknownState { state: 0 })
    } else {
        match transitions_fault(states, transitions) {
            Some(fault) => Some(fault),
            None => endings_fault(states, endings),
        }
    }
}

/// The names that `endings` give to state `q`, in order.
pub open spec fn names_at(q: State, endings: Seq<(State, Seq<char>)>) -> Seq<Seq<char>>
    decreases endings.len(),
{
    if endings.len() == 0 {
        Seq::empty()
    } else if endings.last().0 == q {
        names_at(q, endings.drop_last()).push(endings.last().1)
    } else {
        names_at(q, endings.drop_last())
    }
}

/// The plain-data reading of a list of endings.
pub open spec fn endings_view(endings: Seq<(State, String)>) -> Seq<(State, Seq<char>)> {
    Seq::new(endings.len(), |i: int| (endings[i].0, endings[i].1@))
}

impl DFA {
    /// Makes the automaton that a table declares: `states` states, of which
    /// state 0 is the start state, the listed transitions `(source, symbol,
    /// target)`, and the listed endings `(state, name of a move)`. A key that
    /// is listed twice with one target counts once. The table is refused
    /// where it names a state that is none of the `states`, and where it
    /// lists a key with two targets; the error tells the first such fault.
    pub fn from_table(
        states: usize,
        transitions: Vec<(State, Symbol, State)>,
        endings: Vec<(State, String)>,
    ) -> (result: Result<Self, TableError>)
        ensures
            match table_fault(states as nat, transitions@, endings_view(endings@)) {
                Some(fault) => result == Err::<Self, TableError>(fault),
                None => result matches Ok(dfa) && {
                    &&& dfa.wf()
                    &&& dfa.initial() == 0
                    &&& dfa.num_states() == states
                    &&& forall|q: State, a: Symbol, t: State| #[trigger]
                        dfa.has_transition(q, a, t) <==> transitions@.contains((q, a, t))
                    &&& forall|q: State| #[trigger]
                        dfa.completions(q) == names_at(q, endings_view(endings@))
                },
            },
    {
        if states == 0 {
            return Err(TableError::UnknownState { state: 0 });
        }
        let ghost listed = endings_view(endings@);
        let mut delta_map: BTreeMap<(State, u32), State> = BTreeMap::new();
        let mut state_moves: Vec<Vec<String>> = Vec::new();
        let mut n: usize = 0;
        while n < states
            invariant
                n <= states,
                state_moves@.len() == n,
                forall|q: int| 0 <= q < n ==> (#[trigger] state_moves@[q])@.len() == 0,
            decreases states - n,
        {
            state_moves.push(Vec::new());
            n += 1;
        }
        let mut i: usize = 0;
        while i < transitions.len()
            invariant
                i <= transitions@.len(),
                states >= 1,
                table_ok(delta_map@, states as nat),
                transitions_fault(states as nat, transitions@.take(i as int)) is None,
                forall|q: State, a: Symbol, t: State| #[trigger]
                    has_edge(delta_map@, q, a, t) <==> transitions@.take(i as int).contains(
                        (q, a, t),
                    ),
            decreases transitions@.len() - i,
        {
            let (q, a, t) = transitions[i];
            let ghost earlier = transitions@.take(i as int);
            let ghost now = transitions@.take(i + 1);
            let ghost before = delta_map@;
            proof {
                assert(now.drop_last() =~= earlier);
                assert(now =~= earlier.push((q, a, t)));
            }
            if q >= states {
                proof {
                    lemma_table_fault_stays(states as nat, now, transitions@);
                }
                return Err(TableError::UnknownState { state: q });
            }
            if t >= states {
                proof {
                    lemma_table_fault_stays(states as nat, now, transitions@);
                }
                return Err(TableError::UnknownState { state: t });
            }
            let listed_before = match delta_map.get(&(q, a as u32)) {
                Some(first) => Some(*first),
                None => None,
            };
            proof {
                assert(listed_before == target(before, q, a));
                assert forall|k: int| clashes(earlier, (q, a, t), k) implies listed_before
                    == Some(earlier[k].2) by {
                    assert(earlier.contains((q, a, earlier[k].2)));
                    assert(has_edge(before, q, a, earlier[k].2));
                }
            }
            match listed_before {
                Some(first) => {
                    if first != t {
                        proof {
                            assert(has_edge(before, q, a, first));
                            assert(earlier.contains((q, a, first)));
                            let j = choose|j: int|
                                0 <= j < earlier.len() && earlier[j] == (q, a, first);
                            assert(clashes(earlier, (q, a, t), j));
                            lemma_table_fault_stays(states as nat, now, transitions@);
                        }
                        return Err(
                            TableError::Conflict { state: q, symbol: a, first, second: t },
                        );
                    }
                    proof {
                        assert(has_edge(before, q, a, t));
                        lemma_listed_again(earlier, now, (q, a, t));
                    }
                },
                None => {
                    delta_map.insert((q, a as u32), t);
                    proof {
                        lemma_entry_added(before, states as nat, q, a, t);
                        lemma_listed_next(earlier, now, (q, a, t));
                    }
                },
            }
            i += 1;
        }
        proof {
            assert(transitions@.take(i as int) =~= transitions@);
            assert(names_of(state_moves@[0]@) =~= Seq::<Seq<char>>::empty());
            assert forall|q: int| 0 <= q < states implies names_of((#[trigger] state_moves@[q])@)
                == names_at(q as State, listed.take(0)) by {
                assert(names_of(state_moves@[q]@) =~= Seq::<Seq<char>>::empty());
            }
        }
        let mut k: usize = 0;
        while k < endings.len()
            invariant
                k <= endings@.len(),
                listed == endings_view(endings@),
                states > 0,
                transitions_fault(states as nat, transitions@) is None,
                state_moves@.len() == states,
                endings_fault(states as nat, listed.take(k as int)) is None,
                forall|q: int|
                    0 <= q < states ==> names_of((#[trigger] state_moves@[q])@) == names_at(
                        q as State,
                        listed.take(k as int),
                    ),
            decreases endings@.len() - k,
        {
            let q = endings[k].0;
            proof {
                assert(listed.take(k + 1).drop_last() =~= listed.take(k as int));
                assert(listed.take(k + 1).last() == listed[k as int]);
            }
            if q >= states {
                proof {
                    lemma_endings_fault_stays(states as nat, listed.take(k + 1), listed);
                }
                return Err(TableError::UnknownState { state: q });
            }
            let ghost before = state_moves@;
            let name = endings[k].1.clone();
            state_moves[q].push(name);
            proof {
                assert(names_of(state_moves@[q as int]@) =~= names_of(before[q as int]@).push(
                    listed[k as int].1,
                ));
            }
            k += 1;
        }
        proof {
            assert(listed.take(k as int) =~= listed);
        }
        let dfa = DFA { start: 0, delta_map, state_moves };
        proof {
            assert forall|q: State, a: Symbol, t: State| #[trigger]
                dfa.has_transition(q, a, t) <==> transitions@.contains((q, a, t)) by {
                assert(has_edge(dfa.delta_map@, q, a, t) <==> transitions@.contains((q, a, t)));
            }
            assert forall|q: State| #[trigger] dfa.completions(q) == names_at(q, listed) by {
                if q >= states {
                    lemma_no_names_at(states as nat, q, listed);
                }
            }
        }
        Ok(dfa)
    }
}

/// A list with one more entry holds what it held, and that entry.
proof fn lemma_listed_next(
    earlier: Seq<(State, Symbol, State)>,
    now: Seq<(State, Symbol, State)>,
    entry: (State, Symbol, State),
)
    requires
        now == earlier.push(entry),
    ensures
        forall|other: (State, Symbol, State)|
            now.contains(other) <==> earlier.contains(other) || other == entry,
{
    assert forall|other: (State, Symbol, State)|
        now.contains(other) <==> earlier.contains(other) || other == entry by {
        if now.contains(other) {
            let j = choose|j: int| 0 <= j < now.len() && now[j] == other;
            if j < earlier.len() {
                assert(earlier[j] == other);
            }
        }
        if earlier.contains(other) {
            let j = choose|j: int| 0 <= j < earlier.len() && earlier[j] == other;
            assert(now[j] == other);
        }
        if other == entry {
            assert(now[earlier.len() as int] == other);
        }
    }
}

/// A list with one more entry that it held before holds what it held.
proof fn lemma_listed_again(
    earlier: Seq<(State, Symbol, State)>,
    now: Seq<(State, Symbol, State)>,
    entry: (State, Symbol, State),
)
    requires
        now == earlier.push(entry),
        earlier.contains(entry),
    ensures
        forall|other: (State, Symbol, State)| now.contains(other) <==> earlier.contains(other),
{
    lemma_listed_next(earlier, now, entry);
}

/// A fault among the first transitions is the fault of them all.
proof fn lemma_table_fault_stays(
    states: nat,
    first: Seq<(State, Symbol, State)>,
    all: Seq<(State, Symbol, State)>,
)
    requires
        first.is_prefix_of(all),
        transitions_fault(states, first) is Some,
    ensures
        transitions_fault(states, all) == transitions_fault(states, first),
    decreases all.len(),
{
    if first.len() < all.len() {
        assert(first.is_prefix_of(all.drop_last()));
        lemma_table_fault_stays(states, first, all.drop_last());
    } else {
        assert(first =~= all);
    }
}

/// A fault among the first endings is the fault of them all.
proof fn lemma_endings_fault_stays(
    states: nat,
    first: Seq<(State, Seq<char>)>,
    all: Seq<(State, Seq<char>)>,
)
    requires
        first.is_prefix_of(all),
        endings_fault(states, first) is Some,
    ensures
        endings_fault(states, all) == endings_fault(states, first),
    decreases all.len(),
{
    if first.len() < all.len() {
        assert(first.is_prefix_of(all.drop_last()));
        lemma_endings_fault_stays(states, first, all.drop_last());
    } else {
        assert(first =~= all);
    }
}

/// Endings without a fault give no name to what is no state.
proof fn lemma_no_names_at(states: nat, q: State, endings: Seq<(State, Seq<char>)>)
    requires
        endings_fault(states, endings) is None,
        q >= states,
    ensures
        names_at(q, endings) == Seq::<Seq<char>>::empty(),
    decreases endings.len(),
{
    if endings.len() > 0 {
        lemma_no_names_at(states, q, endings.drop_last());
    }
}

} // verus!
