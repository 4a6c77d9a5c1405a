//! The trace of a step, for a player who wants to watch the automaton.

use crate::tools::dfa::{names_of, DFAConfig, State, Symbol, DFA};
use crate::tools::text::{append_decimal, decimal};
use vstd::prelude::*;

verus! {

/// How a state is written: `q` and its number.
pub open spec fn state_name(q: State) -> Seq<char> {
    "q"@ + decimal(q as nat)
}

/// The trace line of an attempted transition.
pub open spec fn transition_line(current: State, label: Seq<char>, next: Option<State>) -> Seq<
    char,
> {
    "State "@ + state_name(current) + ", \""@ + label + "\" -> "@ + match next {
        Some(t) => "State "@ + state_name(t),
        None => "<no transition>"@,
    }
}

/// The trace line of a move that ends at `at`.
pub open spec fn match_line(name: Seq<char>, at: State) -> Seq<char> {
    "Found end state for \""@ + name + "\" at: "@ + state_name(at)
}

/// The trace of a step: the line of the attempted transition, then a line
/// for each move that the step completes.
pub open spec fn trace_lines(dfa: &DFA, current: State, symbol: Symbol, label: Seq<char>) -> Seq<
    Seq<char>,
> {
    match dfa.transition(current, symbol) {
        Some(t) => seq![transition_line(current, label, Some(t))] + Seq::new(
            dfa.completions(t).len(),
            |i: int| match_line(dfa.completions(t)[i], t),
        ),
        None => seq![transition_line(current, label, None)],
    }
}

/// Appends the name of state `q` to `text`.
pub(crate) fn append_state(text: &mut String, q: State)
    ensures
        final(text)@ == old(text)@ + state_name(q),
{
    text.append("q");
    append_decimal(text, q);
    proof {
        assert(text@ =~= old(text)@ + state_name(q));
    }
}

impl DFA {
    /// The trace of the step that `step` takes on the same arguments, as
    /// lines for the caller to show; no lines unless the configuration asks
    /// for tracing.
    pub fn trace(
        &self,
        current: &State,
        symbol: Symbol,
        token_name: &str,
        config: &DFAConfig,
    ) -> (shown: Vec<String>)
        ensures
            names_of(shown@) == if config.debug {
                trace_lines(self, *current, symbol, token_name@)
            } else {
                Seq::empty()
            },
    {
        let mut shown: Vec<String> = Vec::new();
        if !config.debug {
            proof {
                assert(names_of(shown@) =~= Seq::<Seq<char>>::empty());
            }
            return shown;
        }
        let mut first = String::new();
        first.append("State ");
        append_state(&mut first, *current);
        first.append(", \"");
        first.append(token_name);
        first.append("\" -> ");
        let (next, matches) = self.step(current, symbol, token_name, config);
        match next {
            Some(state) => {
                first.append("State ");
                append_state(&mut first, *state);
                proof {
                    assert(first@ =~= transition_line(*current, token_name@, Some(*state)));
                }
                shown.push(first);
                let mut i: usize = 0;
                while i < matches.len()
                    invariant
                        i <= matches@.len(),
                        shown@.len() == i + 1,
                        shown@[0]@ == transition_line(*current, token_name@, Some(*state)),
                        forall|j: int|
                            0 <= j < i ==> (#[trigger] shown@[j + 1])@ == match_line(
                                matches@[j]@,
                                *state,
                            ),
                    decreases matches@.len() - i,
                {
                    let mut line = String::new();
                    line.append("Found end state for \"");
                    line.append(matches[i].as_str());
                    line.append("\" at: ");
                    append_state(&mut line, *state);
                    proof {
                        assert(line@ =~= match_line(matches@[i as int]@, *state));
                    }
                    shown.push(line);
                    i += 1;
                }
                proof {
                    let t = *state;
                    let wanted = trace_lines(self, *current, symbol, token_name@);
                    assert(self.completions(t) == names_of(matches@));
                    assert(wanted.len() == shown@.len());
                    assert forall|k: int| 0 <= k < wanted.len() implies names_of(shown@)[k]
                        == wanted[k] by {
                        if k > 0 {
                            assert(shown@[(k - 1) + 1]@ == match_line(matches@[k - 1]@, t));
                        }
                    }
                    assert(names_of(shown@) =~= wanted);
                }
            },
            None => {
                first.append("<no transition>");
                proof {
                    assert(first@ =~= transition_line(*current, token_name@, None));
                }
                shown.push(first);
                proof {
                    assert(names_of(shown@) =~= trace_lines(self, *current, symbol, token_name@));
                }
            },
        }
        shown
    }
}

} // verus!
