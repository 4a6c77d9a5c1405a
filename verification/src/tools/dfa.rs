//! A deterministic automaton over input symbols that records, for every
//! state, the moves whose sequence ends there.

use crate::tools::trie::{
    covers, has_edge, has_parent, key, known, labelled, lemma_fresh_state, lemma_move_added,
    lemma_no_names, lemma_paths_unique, lemma_prefixes_kept, linked, table_ok, target,
};
use std::collections::BTreeMap;
use vstd::prelude::*;
use vstd::set_lib::{lemma_int_range, lemma_map_size, set_int_range};

verus! {

broadcast use {vstd::laws_cmp::group_laws_cmp, vstd::std_specs::btree::group_btree_axioms};

/// Identifier of an automaton state. States are numbered from the start state.
pub type State = usize;

/// One input token.
pub type Symbol = char;

/// A recognised move, known by its display name.
#[derive(Debug, Clone, PartialEq, Eq)]
pub struct Move {
    pub name: String,
}

/// Runtime options of the stepping engine.
#[derive(Debug, Clone)]
pub struct DFAConfig {
    pub debug: bool,
}

impl Default for DFAConfig {
    fn default() -> (config: Self)
        ensures
            !config.debug,
    {
        Self { debug: false }
    }
}

/// The moves given to the builder, as plain data: each entry pairs a symbol
/// sequence with the display name of its move.
pub type MoveList = Seq<(Seq<Symbol>, Seq<char>)>;

/// The plain-data reading of a collection of moves.
pub open spec fn moves_view(moves: Seq<(Vec<Symbol>, String)>) -> MoveList {
    Seq::new(moves.len(), |i: int| (moves[i].0@, moves[i].1@))
}

/// The plain-data reading of a list of names.
pub open spec fn names_of(names: Seq<String>) -> Seq<Seq<char>> {
    Seq::new(names.len(), |i: int| names[i]@)
}

/// `word` is an initial part of the sequence of at least one move.
pub open spec fn is_prefix_of_some(word: Seq<Symbol>, moves: MoveList) -> bool {
    exists|i: int| 0 <= i < moves.len() && word.is_prefix_of(#[trigger] moves[i].0)
}

/// The names of the moves whose whole sequence is `word`, in the order in
/// which the moves are listed.
pub open spec fn names_for(word: Seq<Symbol>, moves: MoveList) -> Seq<Seq<char>>
    decreases moves.len(),
{
    if moves.len() == 0 {
        Seq::empty()
    } else if moves.last().0 == word {
        names_for(word, moves.drop_last()).push(moves.last().1)
    } else {
        names_for(word, moves.drop_last())
    }
}

/// `known`, followed by those of the first `upto` non-empty prefixes of
/// `word` that it lacks, shortest first.
pub open spec fn with_prefixes(known: Seq<Seq<Symbol>>, word: Seq<Symbol>, upto: nat) -> Seq<
    Seq<Symbol>,
>
    decreases upto,
{
    if upto == 0 {
        known
    } else {
        let before = with_prefixes(known, word, (upto - 1) as nat);
        if before.contains(word.take(upto as int)) {
            before
        } else {
            before.push(word.take(upto as int))
        }
    }
}

/// The paths of the states of the automaton of `moves`, by state: the empty
/// word for the start state, then the prefixes of the moves' sequences in
/// the order in which they first occur, move by move.
pub open spec fn state_paths(moves: MoveList) -> Seq<Seq<Symbol>>
    decreases moves.len(),
{
    if moves.len() == 0 {
        seq![Seq::empty()]
    } else {
        with_prefixes(state_paths(moves.drop_last()), moves.last().0, moves.last().0.len())
    }
}

/// A deterministic automaton for combo recognition. Its states are numbered
/// from the start state; each state has at most one transition per symbol and
/// carries the names of the moves that end there.
#[derive(Debug)]
pub struct DFA {
    pub(crate) start: State,
    /// The transition table: the state that follows, by state and symbol. A
    /// symbol is filed under its code.
    pub(crate) delta_map: BTreeMap<(State, u32), State>,
    /// `state_moves[q]` holds the names of the moves that end at `q`. There
    /// is an entry for each state, so that the number of entries is the
    /// number of states, and the number of a new state is one that fits.
    pub(crate) state_moves: Vec<Vec<String>>,
}

/// What became of a symbol under the reset policy.
#[derive(Debug, Clone, Copy, PartialEq, Eq, Structural)]
pub enum Outcome {
    /// The current state had a transition on the symbol.
    Advanced,
    /// It had none; the symbol opened a new run from the start state.
    Restarted,
    /// Neither the current state nor the start state had a transition.
    Dropped,
}

/// What a step yields: the next state, if there is a transition, and the
/// names of the moves that end there.
pub open spec fn step_result(dfa: &DFA, q: State, a: Symbol) -> (Option<State>, Seq<Seq<char>>) {
    match dfa.transition(q, a) {
        Some(t) => (Some(t), dfa.completions(t)),
        None => (None, Seq::empty()),
    }
}

/// The reset policy: take the step from `q`; where there is none, take it
/// once more from the start state; where that fails too, stay at the start
/// state with no moves.
pub open spec fn feed_result(dfa: &DFA, q: State, a: Symbol) -> (State, Outcome, Seq<Seq<char>>) {
    match step_result(dfa, q, a) {
        (Some(t), names) => (t, Outcome::Advanced, names),
        (None, _) => match step_result(dfa, dfa.initial(), a) {
            (Some(t), names) => (t, Outcome::Restarted, names),
            (None, _) => (dfa.initial(), Outcome::Dropped, Seq::empty()),
        },
    }
}

impl DFA {
    #[verifier::type_invariant]
    pub(crate) open spec fn inv(self) -> bool {
        self.wf()
    }

    /// The automaton has its start state, its transitions lead to states
    /// that it has, and no state has two transitions on one symbol.
    pub open(crate) spec fn wf(&self) -> bool {
        &&& self.start == 0
        &&& table_ok(self.delta_map@, self.state_moves@.len())
    }

    /// The automaton is a tree rooted at the start state: every other state
    /// is the target of a transition, and no two words lead to one state.
    pub closed spec fn is_tree(&self) -> bool {
        &&& self.wf()
        &&& exists|paths: Seq<Seq<Symbol>>| self.spells(paths)
    }

    /// `paths` are the paths of the states, by state.
    spec fn spells(&self, paths: Seq<Seq<Symbol>>) -> bool {
        paths.len() == self.state_moves@.len() && linked(self.delta_map@, paths)
    }

    /// The start state.
    pub open(crate) spec fn initial(&self) -> State {
        self.start
    }

    /// How many states the automaton has. Its states are `0 .. num_states()`.
    pub open(crate) spec fn num_states(&self) -> nat {
        self.state_moves@.len()
    }

    /// The transition table lists `t` as a target for the key `(q, a)`.
    pub open(crate) spec fn has_transition(&self, q: State, a: Symbol, t: State) -> bool {
        has_edge(self.delta_map@, q, a, t)
    }

    /// The transition function: the state reached from `q` on `a`, if any.
    pub open(crate) spec fn transition(&self, q: State, a: Symbol) -> Option<State> {
        target(self.delta_map@, q, a)
    }

    /// The names of the moves that end at `q`, in the order in which the
    /// moves were given; empty where no move ends.
    pub open(crate) spec fn completions(&self, q: State) -> Seq<Seq<char>> {
        if q < self.state_moves@.len() {
            names_of(self.state_moves@[q as int]@)
        } else {
            Seq::empty()
        }
    }

    /// The paths of the states of a tree, by state.
    spec fn paths(&self) -> Seq<Seq<Symbol>> {
        choose|paths: Seq<Seq<Symbol>>| self.spells(paths)
    }

    /// The word that leads from the start state to `q`.
    pub closed spec fn path(&self, q: State) -> Seq<Symbol> {
        if q < self.state_moves@.len() {
            self.paths()[q as int]
        } else {
            Seq::empty()
        }
    }

    /// The state reached from `q` by feeding the symbols of `word` in order,
    /// if every one of them has a transition.
    pub open spec fn run(&self, q: State, word: Seq<Symbol>) -> Option<State>
        decreases word.len(),
    {
        if word.len() == 0 {
            Some(q)
        } else {
            match self.run(q, word.drop_last()) {
                Some(p) => self.transition(p, word.last()),
                None => None,
            }
        }
    }

    /// What it means to be the automaton of `moves`: the states are numbered
    /// in the order in which the prefixes of the moves' sequences first
    /// occur, the words that can be fed from the start state are those
    /// prefixes, each leads to the state whose path it is, and that state
    /// carries the names of exactly the moves whose whole sequence is the
    /// word, in the order of `moves`.
    pub open spec fn built_from(&self, moves: MoveList) -> bool {
        &&& self.wf()
        &&& self.is_tree()
        &&& self.initial() == 0
        &&& self.num_states() == state_paths(moves).len()
        &&& forall|q: State|
            q < self.num_states() ==> #[trigger] self.path(q) == state_paths(moves)[q as int]
        &&& forall|w: Seq<Symbol>|
            (#[trigger] self.run(self.initial(), w)) is Some <==> (w.len() == 0
                || is_prefix_of_some(w, moves))
        &&& forall|w: Seq<Symbol>|
            (#[trigger] self.run(self.initial(), w)) matches Some(q) ==> {
                &&& q < self.num_states()
                &&& self.path(q) == w
                &&& self.completions(q) == names_for(w, moves)
            }
        &&& forall|q: State|
            q < self.num_states() ==> self.run(self.initial(), #[trigger] self.path(q)) == Some(q)
        &&& forall|q: State, a: Symbol|
            q >= self.num_states() ==> (#[trigger] self.transition(q, a)) is None
        &&& forall|q: State| q >= self.num_states() ==> (#[trigger] self.completions(q)).len() == 0
    }

    /// Builds the automaton of `moves`, each a pair of a symbol sequence and
    /// a name. Moves with a common prefix share the states of that prefix; a
    /// move with an empty sequence ends at the start state.
    pub fn from_moves(moves: Vec<(Vec<Symbol>, String)>) -> (dfa: Self)
        ensures
            dfa.built_from(moves_view(moves@)),
    {
        let ghost all = moves_view(moves@);
        let mut delta_map: BTreeMap<(State, u32), State> = BTreeMap::new();
        let mut state_moves: Vec<Vec<String>> = Vec::new();
        let ghost mut paths: Seq<Seq<Symbol>> = seq![Seq::empty()];
        state_moves.push(Vec::new());
        proof {
            assert(names_of(state_moves@[0]@) =~= names_for(paths[0], all.take(0)));
            assert forall|t: State| 1 <= t < paths.len() implies #[trigger] has_parent(
                delta_map@,
                t,
            ) by {}
        }
        let mut m: usize = 0;
        while m < moves.len()
            invariant
                m <= moves@.len(),
                all == moves_view(moves@),
                linked(delta_map@, paths),
                covers(paths, all.take(m as int)),
                labelled(state_moves@, paths, all.take(m as int)),
                paths == state_paths(all.take(m as int)),
            decreases moves@.len() - m,
        {
            let seq = &moves[m].0;
            let mut current: State = 0;
            let mut k: usize = 0;
            proof {
                lemma_prefixes_kept(paths, all, m as int);
                assert(seq@.take(0) =~= paths[0]);
            }
            while k < seq.len()
                invariant
                    m < moves@.len(),
                    all == moves_view(moves@),
                    seq@ == all[m as int].0,
                    k <= seq@.len(),
                    linked(delta_map@, paths),
                    current < paths.len(),
                    paths[current as int] == seq@.take(k as int),
                    forall|j: int| 0 <= j <= k ==> known(paths, #[trigger] seq@.take(j)),
                    forall|q: int|
                        1 <= q < paths.len() ==> is_prefix_of_some(
                            #[trigger] paths[q],
                            all.take(m + 1),
                        ),
                    forall|w: Seq<Symbol>| #[trigger]
                        is_prefix_of_some(w, all.take(m as int)) ==> known(paths, w),
                    labelled(state_moves@, paths, all.take(m as int)),
                    paths == with_prefixes(state_paths(all.take(m as int)), seq@, k as nat),
                decreases seq@.len() - k,
            {
                let sym = seq[k];
                let ghost longer = seq@.take(k + 1);
                proof {
                    assert(longer =~= seq@.take(k as int).push(sym));
                }
                let ghost source = current;
                match delta_map.get(&(current, sym as u32)) {
                    Some(next) => {
                        current = *next;
                        proof {
                            assert(delta_map@.contains_key(key(source, sym)));
                            assert(paths[current as int] == longer);
                            assert(paths.contains(longer));
                        }
                    },
                    None => {
                        let fresh: State = state_moves.len();
                        let ghost before = delta_map@;
                        let ghost old_paths = paths;
                        delta_map.insert((current, sym as u32), fresh);
                        state_moves.push(Vec::new());
                        proof {
                            paths = paths.push(longer);
                            assert(!before.contains_key(key(current, sym)));
                            lemma_fresh_state(before, old_paths, current, sym, fresh);
                            assert(!old_paths.contains(longer)) by {
                                if old_paths.contains(longer) {
                                    let q = choose|q: int|
                                        0 <= q < old_paths.len() && old_paths[q] == longer;
                                    assert(known(old_paths, old_paths[q]));
                                }
                            }
                            lemma_no_names(longer, all.take(m as int));
                            assert(names_of(state_moves@[fresh as int]@) =~= Seq::empty());
                            assert(longer.is_prefix_of(all.take(m + 1)[m as int].0));
                            assert forall|w: Seq<Symbol>| known(old_paths, w) implies known(
                                paths,
                                w,
                            ) by {
                                let q = choose|q: int|
                                    0 <= q < old_paths.len() && #[trigger] old_paths[q] == w;
                                assert(paths[q] == w);
                            }
                        }
                        current = fresh;
                    },
                }
                k += 1;
                proof {
                    assert(paths[current as int] == longer);
                }
            }
            let name = moves[m].1.clone();
            let ghost old_names = state_moves@;
            state_moves[current].push(name);
            proof {
                assert(seq@.take(seq@.len() as int) =~= seq@);
                assert(all.take(m + 1).drop_last() =~= all.take(m as int));
                assert(all.take(m + 1).last() == all[m as int]);
                assert(names_of(state_moves@[current as int]@) =~= names_of(
                    old_names[current as int]@,
                ).push(all[m as int].1));
                lemma_move_added(old_names, state_moves@, paths, all, m as int, current as int);
            }
            m += 1;
        }
        proof {
            assert(all.take(m as int) =~= all);
        }
        let dfa = DFA { start: 0, delta_map, state_moves };
        proof {
            assert(dfa.spells(paths));
            assert(paths.len() == dfa.state_moves.len());
            lemma_paths_unique(dfa.delta_map@, dfa.paths(), paths);
            dfa.lemma_built(all);
        }
        dfa
    }

    /// The start state.
    pub fn start_state(&self) -> (start: &State)
        ensures
            *start == self.initial(),
    {
        &self.start
    }

    /// The transition function: the state that follows `q` on `a`, or `None`
    /// where the table has no entry for that key.
    pub fn delta(&self, q: &State, a: Symbol) -> (next: Option<&State>)
        ensures
            match next {
                Some(t) => self.transition(*q, a) == Some(*t),
                None => self.transition(*q, a) is None,
            },
    {
        proof {
            use_type_invariant(self);
        }
        self.delta_map.get(&(*q, a as u32))
    }

    /// The moves that end at `state`: `None` where no move ends there.
    pub fn get_matches(&self, state: &State) -> (found: Option<&Vec<String>>)
        ensures
            match found {
                Some(names) => names@.len() > 0 && names_of(names@) == self.completions(*state),
                None => self.completions(*state).len() == 0,
            },
    {
        proof {
            use_type_invariant(self);
        }
        if *state < self.state_moves.len() && self.state_moves[*state].len() > 0 {
            Some(&self.state_moves[*state])
        } else {
            None
        }
    }

    /// Consumes one symbol from `current`: gives the next state and the moves
    /// that end there, or no state and no moves where `current` has no
    /// transition on `symbol`. The label and the configuration serve the
    /// trace alone, which `trace` gives, and have no part in the result.
    #[allow(unused_variables)]
    pub fn step(
        &self,
        current: &State,
        symbol: Symbol,
        token_name: &str,
        config: &DFAConfig,
    ) -> (result: (Option<&State>, &[String]))
        ensures
            match step_result(self, *current, symbol).0 {
                Some(t) => result.0 == Some(&t),
                None => result.0 is None,
            },
            names_of(result.1@) == step_result(self, *current, symbol).1,
    {
        let next = self.delta(current, symbol);
        let matches: &[String] = match next {
            Some(next_state) => match self.get_matches(next_state) {
                Some(moves) => moves.as_slice(),
                None => &[],
            },
            None => &[],
        };
        proof {
            assert(names_of(matches@) =~= step_result(self, *current, symbol).1);
        }
        (next, matches)
    }

    /// Consumes one symbol under the reset policy and gives the state to go
    /// on from, what became of the symbol, and the moves that it completed.
    /// A symbol without a transition from `current` is tried once more from
    /// the start state, so that it can open the next combo; if that fails as
    /// well it is dropped, and the state to go on from is the start state.
    pub fn feed(
        &self,
        current: &State,
        symbol: Symbol,
        token_name: &str,
        config: &DFAConfig,
    ) -> (result: (State, Outcome, &[String]))
        ensures
            result.0 == feed_result(self, *current, symbol).0,
            result.1 == feed_result(self, *current, symbol).1,
            names_of(result.2@) == feed_result(self, *current, symbol).2,
    {
        let (next, matches) = self.step(current, symbol, token_name, config);
        if let Some(state) = next {
            return (*state, Outcome::Advanced, matches);
        }
        let (retry, matches) = self.step(&self.start, symbol, token_name, config);
        match retry {
            Some(state) => (*state, Outcome::Restarted, matches),
            None => (self.start, Outcome::Dropped, matches),
        }
    }
}

impl DFA {
    /// The start state is state 0, and every automaton has it.
    pub proof fn lemma_start_is_a_state(&self)
        requires
            self.wf(),
        ensures
            self.initial() == 0,
            self.initial() < self.num_states(),
    {
    }

    /// No key of the transition table has two targets.
    pub proof fn lemma_deterministic(&self, q: State, a: Symbol, t1: State, t2: State)
        requires
            self.wf(),
            self.has_transition(q, a, t1),
            self.has_transition(q, a, t2),
        ensures
            t1 == t2,
    {
    }

    /// The transition function gives the one target that the table lists for
    /// a key, and nothing where the table lists none. Every target is a state
    /// of the automaton.
    pub proof fn lemma_transition_is_table(&self, q: State, a: Symbol)
        requires
            self.wf(),
        ensures
            forall|t: State| self.transition(q, a) == Some(t) <==> self.has_transition(q, a, t),
            self.transition(q, a) matches Some(t) ==> q < self.num_states() && t
                < self.num_states(),
    {
        if let Some(t) = self.transition(q, a) {
            assert(self.delta_map@.contains_key(key(q, a)));
        }
    }

    /// Feeding the path of a state from the start state leads to that state.
    pub proof fn lemma_path_runs(&self, q: State)
        requires
            self.is_tree(),
            q < self.num_states(),
        ensures
            self.run(self.initial(), self.path(q)) == Some(q),
        decreases self.path(q).len(),
    {
        if q != 0 {
            assert(has_parent(self.delta_map@, q));
            let (p, a) = choose|p: State, a: Symbol| #[trigger] has_edge(self.delta_map@, p, a, q);
            assert(self.delta_map@.contains_key(key(p, a)));
            assert(self.paths()[q as int] == self.paths()[p as int].push(a));
            assert(self.path(q).drop_last() =~= self.path(p));
            self.lemma_path_runs(p);
        }
    }

    /// A word that can be fed from the start state is the path of the state
    /// that it leads to.
    pub proof fn lemma_run_gives_path(&self, word: Seq<Symbol>)
        requires
            self.is_tree(),
        ensures
            self.run(self.initial(), word) matches Some(q) ==> q < self.num_states() && self.path(
                q,
            ) == word,
        decreases word.len(),
    {
        if word.len() > 0 {
            self.lemma_run_gives_path(word.drop_last());
            if let Some(p) = self.run(self.initial(), word.drop_last()) {
                if let Some(q) = self.transition(p, word.last()) {
                    assert(self.delta_map@.contains_key(key(p, word.last())));
                    assert(self.paths()[q as int] == self.paths()[p as int].push(word.last()));
                    assert(word.drop_last().push(word.last()) =~= word);
                }
            }
        } else {
            assert(word =~= self.path(0));
        }
    }

    /// Feeding the whole sequence of a move from the start state leads to a
    /// state that carries the move's name.
    pub proof fn lemma_move_completes(&self, moves: MoveList, i: int)
        requires
            self.built_from(moves),
            0 <= i < moves.len(),
        ensures
            self.run(self.initial(), moves[i].0) matches Some(q) && self.completions(q).contains(
                moves[i].1,
            ),
    {
        assert(moves[i].0.is_prefix_of(moves[i].0));
        assert(is_prefix_of_some(moves[i].0, moves));
        assert(self.run(self.initial(), moves[i].0) is Some);
        lemma_names_for_members(moves[i].0, moves);
        assert(moves[i] == (moves[i].0, moves[i].1));
    }

    /// A state carries a name only if a move of that name has a sequence
    /// that leads to the state: a state at which no move ends carries none.
    pub proof fn lemma_no_false_positives(&self, moves: MoveList, q: State)
        requires
            self.built_from(moves),
        ensures
            forall|name: Seq<char>|
                self.completions(q).contains(name) ==> exists|i: int|
                    0 <= i < moves.len() && #[trigger] moves[i].1 == name && self.run(
                        self.initial(),
                        moves[i].0,
                    ) == Some(q),
            (forall|i: int|
                0 <= i < moves.len() ==> self.run(self.initial(), #[trigger] moves[i].0) != Some(q))
                ==> self.completions(q).len() == 0,
    {
        if q < self.num_states() {
            let w = self.path(q);
            assert(self.run(self.initial(), w) == Some(q));
            lemma_names_for_members(w, moves);
            assert forall|name: Seq<char>| self.completions(q).contains(name) implies exists|i: int|
                0 <= i < moves.len() && #[trigger] moves[i].1 == name && self.run(
                    self.initial(),
                    moves[i].0,
                ) == Some(q) by {
                let i = choose|i: int| 0 <= i < moves.len() && #[trigger] moves[i] == (w, name);
                assert(moves[i].1 == name);
            }
            if self.completions(q).len() > 0 {
                assert(self.completions(q).contains(self.completions(q)[0]));
            }
        }
    }

    /// The order in which the moves are given decides how the states are
    /// numbered and in which order a state lists its names, and nothing
    /// else: two automata of the same moves can be fed the same words, and
    /// a word completes the same moves in both.
    pub proof fn lemma_order_is_immaterial(
        &self,
        other: &DFA,
        moves: MoveList,
        shuffled: MoveList,
    )
        requires
            self.built_from(moves),
            other.built_from(shuffled),
            moves.to_multiset() == shuffled.to_multiset(),
        ensures
            self.num_states() == other.num_states(),
            forall|w: Seq<Symbol>|
                (#[trigger] self.run(self.initial(), w)) is Some <==> other.run(
                    other.initial(),
                    w,
                ) is Some,
            forall|w: Seq<Symbol>, name: Seq<char>|
                (#[trigger] self.run(self.initial(), w)) is Some ==> (self.completions(
                    self.run(self.initial(), w).unwrap(),
                ).contains(name) <==> #[trigger] other.completions(
                    other.run(other.initial(), w).unwrap(),
                ).contains(name)),
    {
        assert forall|w: Seq<Symbol>| is_prefix_of_some(w, moves) <==> is_prefix_of_some(
            w,
            shuffled,
        ) by {
            if is_prefix_of_some(w, moves) {
                let i = choose|i: int|
                    0 <= i < moves.len() && w.is_prefix_of(#[trigger] moves[i].0);
                lemma_same_members(moves, shuffled, moves[i]);
                let j = choose|j: int| 0 <= j < shuffled.len() && shuffled[j] == moves[i];
                assert(w.is_prefix_of(shuffled[j].0));
            }
            if is_prefix_of_some(w, shuffled) {
                let i = choose|i: int|
                    0 <= i < shuffled.len() && w.is_prefix_of(#[trigger] shuffled[i].0);
                lemma_same_members(shuffled, moves, shuffled[i]);
                let j = choose|j: int| 0 <= j < moves.len() && moves[j] == shuffled[i];
                assert(w.is_prefix_of(moves[j].0));
            }
        }
        assert forall|w: Seq<Symbol>|
            (#[trigger] self.run(self.initial(), w)) is Some <==> other.run(
                other.initial(),
                w,
            ) is Some by {}
        assert forall|w: Seq<Symbol>, name: Seq<char>|
            (#[trigger] self.run(self.initial(), w)) is Some implies (self.completions(
            self.run(self.initial(), w).unwrap(),
        ).contains(name) <==> #[trigger] other.completions(
            other.run(other.initial(), w).unwrap(),
        ).contains(name)) by {
            assert(other.run(other.initial(), w) is Some);
            lemma_names_for_members(w, moves);
            lemma_names_for_members(w, shuffled);
            if names_for(w, moves).contains(name) {
                let i = choose|i: int| 0 <= i < moves.len() && #[trigger] moves[i] == (w, name);
                lemma_same_members(moves, shuffled, moves[i]);
                let j = choose|j: int| 0 <= j < shuffled.len() && shuffled[j] == (w, name);
            }
            if names_for(w, shuffled).contains(name) {
                let i = choose|i: int|
                    0 <= i < shuffled.len() && #[trigger] shuffled[i] == (w, name);
                lemma_same_members(shuffled, moves, shuffled[i]);
                let j = choose|j: int| 0 <= j < moves.len() && moves[j] == (w, name);
            }
        }
        self.lemma_same_size(other);
    }

    /// Two trees that can be fed the same words have as many states.
    proof fn lemma_same_size(&self, other: &DFA)
        requires
            self.is_tree(),
            other.is_tree(),
            forall|w: Seq<Symbol>|
                (#[trigger] self.run(self.initial(), w)) is Some <==> other.run(
                    other.initial(),
                    w,
                ) is Some,
        ensures
            self.num_states() == other.num_states(),
    {
        let words = Set::new(|w: Seq<Symbol>| self.run(self.initial(), w) is Some);
        self.lemma_states_match_words(words);
        other.lemma_states_match_words(words);
    }

    /// A tree has as many states as there are words that it can be fed.
    proof fn lemma_states_match_words(&self, words: Set<Seq<Symbol>>)
        requires
            self.is_tree(),
            forall|w: Seq<Symbol>|
                words.contains(w) <==> (#[trigger] self.run(self.initial(), w)) is Some,
        ensures
            words.finite(),
            words.len() == self.num_states(),
    {
        let n = self.num_states() as int;
        let states = set_int_range(0, n);
        let path_of = |q: int| self.path(q as State);
        assert(self.state_moves@.len() == self.state_moves.len());
        assert forall|p: int, q: int|
            states.contains(p) && states.contains(q) && #[trigger] path_of(p) == #[trigger] path_of(
                q,
            ) implies p == q by {
            self.lemma_path_runs(p as State);
            self.lemma_path_runs(q as State);
        }
        assert forall|w: Seq<Symbol>| states.map(path_of).contains(w) <==> words.contains(w) by {
            if states.map(path_of).contains(w) {
                let q = choose|q: int| states.contains(q) && w == path_of(q);
                self.lemma_path_runs(q as State);
            }
            if words.contains(w) {
                self.lemma_run_gives_path(w);
                let q = self.run(self.initial(), w).unwrap();
                assert(states.contains(q as int) && w == path_of(q as int));
            }
        }
        assert(states.map(path_of) =~= words);
        lemma_int_range(0, n);
        lemma_map_size(states, words, path_of);
    }

    /// Where a symbol has no transition from the current state, the reset
    /// policy gives what the symbol gives as the first of a fresh run.
    pub proof fn lemma_reset_is_fresh_run(&self, q: State, x: Symbol)
        requires
            self.wf(),
            self.transition(q, x) is None,
        ensures
            feed_result(self, q, x).0 == feed_result(self, self.initial(), x).0,
            feed_result(self, q, x).2 == feed_result(self, self.initial(), x).2,
            feed_result(self, q, x).2 == step_result(self, self.initial(), x).1,
            step_result(self, self.initial(), x).0 matches Some(t) ==> feed_result(self, q, x).0
                == t,
            step_result(self, self.initial(), x).0 is None ==> feed_result(self, q, x).0
                == self.initial(),
    {
    }

    /// A linked table whose states are the prefixes of `moves` and whose
    /// labels follow `moves` is the automaton of `moves`.
    proof fn lemma_built(&self, moves: MoveList)
        requires
            self.is_tree(),
            covers(self.paths(), moves),
            labelled(self.state_moves@, self.paths(), moves),
            self.paths() == state_paths(moves),
        ensures
            self.built_from(moves),
    {
        assert forall|w: Seq<Symbol>|
            (#[trigger] self.run(self.initial(), w)) matches Some(q) ==> {
                &&& q < self.num_states()
                &&& self.path(q) == w
                &&& self.completions(q) == names_for(w, moves)
            } by {
            self.lemma_run_gives_path(w);
        }
        assert forall|q: State| q < self.num_states() implies self.run(
            self.initial(),
            #[trigger] self.path(q),
        ) == Some(q) by {
            self.lemma_path_runs(q);
        }
        assert forall|w: Seq<Symbol>|
            (#[trigger] self.run(self.initial(), w)) is Some <==> (w.len() == 0
                || is_prefix_of_some(w, moves)) by {
            self.lemma_run_gives_path(w);
            if w.len() == 0 || is_prefix_of_some(w, moves) {
                if w.len() == 0 {
                } else {
                    assert(known(self.paths(), w));
                    let q = choose|q: int|
                        0 <= q < self.paths().len() && #[trigger] self.paths()[q] == w;
                    assert(self.state_moves@.len() == self.state_moves.len());
                    self.lemma_path_runs(q as State);
                }
            }
            if self.run(self.initial(), w) is Some && w.len() > 0 {
                let q = self.run(self.initial(), w).unwrap();
                assert(q != 0);
                assert(is_prefix_of_some(self.paths()[q as int], moves));
            }
        }
    }
}

/// Lists that hold the same moves equally often hold the same moves.
proof fn lemma_same_members(moves: MoveList, shuffled: MoveList, entry: (Seq<Symbol>, Seq<char>))
    requires
        moves.to_multiset() == shuffled.to_multiset(),
        moves.contains(entry),
    ensures
        shuffled.contains(entry),
{
    moves.to_multiset_ensures();
    shuffled.to_multiset_ensures();
    assert(moves.to_multiset().count(entry) > 0);
    assert(shuffled.to_multiset().count(entry) > 0);
}

/// The names listed for a word are those that the moves pair with it.
pub proof fn lemma_names_for_members(word: Seq<Symbol>, moves: MoveList)
    ensures
        forall|name: Seq<char>|
            names_for(word, moves).contains(name) <==> exists|i: int|
                0 <= i < moves.len() && #[trigger] moves[i] == (word, name),
    decreases moves.len(),
{
    if moves.len() > 0 {
        let rest = moves.drop_last();
        let last = moves.last();
        lemma_names_for_members(word, rest);
        assert forall|name: Seq<char>| names_for(word, moves).contains(name) implies exists|i: int|
            0 <= i < moves.len() && #[trigger] moves[i] == (word, name) by {
            let names = names_for(word, moves);
            let k = choose|k: int| 0 <= k < names.len() && names[k] == name;
            if last.0 == word && k == names.len() - 1 {
                assert(moves[moves.len() - 1] == (word, name));
            } else {
                assert(names_for(word, rest)[k] == name);
                assert(names_for(word, rest).contains(name));
                let i = choose|i: int| 0 <= i < rest.len() && #[trigger] rest[i] == (word, name);
                assert(moves[i] == (word, name));
            }
        }
        assert forall|name: Seq<char>|
            (exists|i: int|
                0 <= i < moves.len() && #[trigger] moves[i] == (word, name)) implies names_for(
            word,
            moves,
        ).contains(name) by {
            let i = choose|i: int| 0 <= i < moves.len() && #[trigger] moves[i] == (word, name);
            let names = names_for(word, moves);
            if i == moves.len() - 1 {
                assert(names[names.len() - 1] == name);
            } else {
                assert(rest[i] == (word, name));
                assert(names_for(word, rest).contains(name));
                let k = choose|k: int|
                    0 <= k < names_for(word, rest).len() && names_for(word, rest)[k] == name;
                assert(names[k] == name);
            }
        }
    }
}

} // verus!
