//! The transition table of an automaton: a map from a state and the code
//! of a symbol to the state that follows. The predicates here say when such
//! a table belongs to an automaton and when it is a tree of prefixes, and
//! the lemmas show that the builder's steps keep it so.

use crate::tools::dfa::{is_prefix_of_some, names_for, names_of, MoveList, State, Symbol};
use vstd::prelude::*;

verus! {

/// A transition table: the target by source and symbol.
pub(crate) type Table = Map<(State, u32), State>;

/// Where the table files the transition from `q` on `a`.
pub(crate) open spec fn key(q: State, a: Symbol) -> (State, u32) {
    (q, a as u32)
}

/// The table leads from `q` on `a` to `t`.
pub(crate) open spec fn has_edge(edges: Table, q: State, a: Symbol, t: State) -> bool {
    edges.contains_key(key(q, a)) && edges[key(q, a)] == t
}

/// The state that the table leads to from `q` on `a`, if any.
pub(crate) open spec fn target(edges: Table, q: State, a: Symbol) -> Option<State> {
    if edges.contains_key(key(q, a)) {
        Some(edges[key(q, a)])
    } else {
        None
    }
}

/// Some transition of the table leads to `t`.
pub(crate) open spec fn has_parent(edges: Table, t: State) -> bool {
    exists|q: State, a: Symbol| #[trigger] has_edge(edges, q, a, t)
}

/// The table is one of an automaton of `n` states: its transitions lead
/// from states to states.
pub(crate) open spec fn table_ok(edges: Table, n: nat) -> bool {
    &&& n >= 1
    &&& forall|q: State, a: Symbol| #[trigger]
        edges.contains_key(key(q, a)) ==> q < n && edges[key(q, a)] < n
}

/// The table is a tree rooted at state 0 in which `paths[q]` spells the way
/// from the root to `q`: every transition extends its source's path by its
/// symbol, no two states share a path, and every state but the root is the
/// target of a transition.
pub(crate) open spec fn linked(edges: Table, paths: Seq<Seq<Symbol>>) -> bool {
    let n = paths.len();
    &&& table_ok(edges, n)
    &&& paths[0].len() == 0
    &&& forall|q: State, a: Symbol| #[trigger]
        edges.contains_key(key(q, a)) ==> paths[edges[key(q, a)] as int] == paths[q as int].push(
            a,
        )
    &&& forall|p: int, q: int| 0 <= p < q < n ==> #[trigger] paths[p] != #[trigger] paths[q]
    &&& forall|t: State| 1 <= t < n ==> #[trigger] has_parent(edges, t)
}

/// Some state has the path `word`.
pub(crate) open spec fn known(paths: Seq<Seq<Symbol>>, word: Seq<Symbol>) -> bool {
    exists|q: int| 0 <= q < paths.len() && #[trigger] paths[q] == word
}

/// The paths of the states are the prefixes of the moves' sequences.
pub(crate) open spec fn covers(paths: Seq<Seq<Symbol>>, moves: MoveList) -> bool {
    &&& forall|q: int| 1 <= q < paths.len() ==> is_prefix_of_some(#[trigger] paths[q], moves)
    &&& forall|w: Seq<Symbol>| #[trigger] is_prefix_of_some(w, moves) ==> known(paths, w)
}

/// Each state carries the names of the moves whose sequence is its path.
pub(crate) open spec fn labelled(
    state_moves: Seq<Vec<String>>,
    paths: Seq<Seq<Symbol>>,
    moves: MoveList,
) -> bool {
    &&& state_moves.len() == paths.len()
    &&& forall|q: int|
        0 <= q < paths.len() ==> names_of((#[trigger] state_moves[q])@) == names_for(
            paths[q],
            moves,
        )
}

/// Two symbols that are filed in one place are one symbol.
pub(crate) proof fn lemma_key_is_its_own(q: State, a: Symbol, p: State, b: Symbol)
    ensures
        key(q, a) == key(p, b) <==> q == p && a == b,
{
    if key(q, a) == key(p, b) {
        assert(a as int == b as int);
    }
}

/// A new transition with known ends keeps the table that of an automaton,
/// and is the one transition that it adds.
pub(crate) proof fn lemma_entry_added(before: Table, n: nat, q: State, a: Symbol, t: State)
    requires
        table_ok(before, n),
        q < n,
        t < n,
        !before.contains_key(key(q, a)),
    ensures
        table_ok(before.insert(key(q, a), t), n),
        forall|p: State, b: Symbol, u: State| #[trigger]
            has_edge(before.insert(key(q, a), t), p, b, u) <==> has_edge(before, p, b, u) || (p == q
                && b == a && u == t),
{
    let after = before.insert(key(q, a), t);
    assert forall|p: State, b: Symbol| #[trigger] after.contains_key(key(p, b)) implies p < n
        && after[key(p, b)] < n by {
        lemma_key_is_its_own(q, a, p, b);
        if key(p, b) != key(q, a) {
            assert(before.contains_key(key(p, b)));
        }
    }
    assert forall|p: State, b: Symbol, u: State| #[trigger]
        has_edge(after, p, b, u) <==> has_edge(before, p, b, u) || (p == q && b == a && u
            == t) by {
        lemma_key_is_its_own(q, a, p, b);
    }
}

/// A prefix of one of the first `m` moves is a prefix of one of the first
/// `m + 1`.
pub(crate) proof fn lemma_prefixes_kept(paths: Seq<Seq<Symbol>>, all: MoveList, m: int)
    requires
        0 <= m < all.len(),
        covers(paths, all.take(m)),
    ensures
        forall|q: int|
            1 <= q < paths.len() ==> is_prefix_of_some(#[trigger] paths[q], all.take(m + 1)),
{
    assert forall|q: int| 1 <= q < paths.len() implies is_prefix_of_some(
        #[trigger] paths[q],
        all.take(m + 1),
    ) by {
        assert(is_prefix_of_some(paths[q], all.take(m)));
        let i = choose|i: int|
            0 <= i < all.take(m).len() && paths[q].is_prefix_of(#[trigger] all.take(m)[i].0);
        assert(paths[q].is_prefix_of(all.take(m + 1)[i].0));
    }
}

/// A word that is the prefix of no move is the sequence of no move.
pub(crate) proof fn lemma_no_names(word: Seq<Symbol>, moves: MoveList)
    requires
        !is_prefix_of_some(word, moves),
    ensures
        names_for(word, moves) == Seq::<Seq<char>>::empty(),
    decreases moves.len(),
{
    if moves.len() > 0 {
        let rest = moves.drop_last();
        assert(word.is_prefix_of(moves[moves.len() - 1].0) ==> is_prefix_of_some(word, moves));
        if is_prefix_of_some(word, rest) {
            let i = choose|i: int| 0 <= i < rest.len() && word.is_prefix_of(#[trigger] rest[i].0);
            assert(word.is_prefix_of(moves[i].0));
        }
        lemma_no_names(word, rest);
    }
}

/// A transition on a new symbol to a state of its own keeps the table a
/// tree, and the new state's path is one that no state had.
pub(crate) proof fn lemma_fresh_state(
    before: Table,
    paths: Seq<Seq<Symbol>>,
    cur: State,
    sym: Symbol,
    fresh: State,
)
    requires
        linked(before, paths),
        cur < paths.len(),
        fresh == paths.len(),
        !before.contains_key(key(cur, sym)),
    ensures
        linked(before.insert(key(cur, sym), fresh), paths.push(paths[cur as int].push(sym))),
        !known(paths, paths[cur as int].push(sym)),
{
    let n = paths.len() as int;
    let word = paths[cur as int].push(sym);
    let grown = paths.push(word);
    let after = before.insert(key(cur, sym), fresh);
    assert forall|q: int| 0 <= q < n implies #[trigger] paths[q] != word by {
        if paths[q] == word {
            assert(q != 0);
            assert(has_parent(before, q as State));
            let (p, a) = choose|p: State, a: Symbol| #[trigger] has_edge(before, p, a, q as State);
            assert(before.contains_key(key(p, a)));
            assert(paths[q] == paths[p as int].push(a));
            assert(paths[p as int].push(a).drop_last() =~= paths[p as int]);
            assert(word.drop_last() =~= paths[cur as int]);
            assert(paths[p as int].push(a).last() == a);
            if p < cur {
                assert(paths[p as int] != paths[cur as int]);
            }
            if cur < p {
                assert(paths[cur as int] != paths[p as int]);
            }
            assert(false);
        }
    }
    assert forall|q: State, a: Symbol| #[trigger] after.contains_key(key(q, a)) implies q < n + 1
        && after[key(q, a)] < n + 1 && grown[after[key(q, a)] as int] == grown[q as int].push(
        a,
    ) by {
        lemma_key_is_its_own(cur, sym, q, a);
        if key(q, a) != key(cur, sym) {
            assert(before.contains_key(key(q, a)));
        }
    }
    assert forall|p: int, q: int| 0 <= p < q < n + 1 implies #[trigger] grown[p]
        != #[trigger] grown[q] by {
        if q < n {
            assert(paths[p] != paths[q]);
        } else {
            assert(paths[p] != word);
        }
    }
    assert forall|t: State| 1 <= t < n + 1 implies #[trigger] has_parent(after, t) by {
        if t < n {
            assert(has_parent(before, t));
            let (p, a) = choose|p: State, a: Symbol| #[trigger] has_edge(before, p, a, t);
            lemma_key_is_its_own(cur, sym, p, a);
            assert(has_edge(after, p, a, t));
        } else {
            assert(has_edge(after, cur, sym, t));
        }
    }
}

/// Recording the name of move `m` at the state whose path is its sequence
/// brings the labels and the states up to date with the first `m + 1` moves.
pub(crate) proof fn lemma_move_added(
    old_names: Seq<Vec<String>>,
    new_names: Seq<Vec<String>>,
    paths: Seq<Seq<Symbol>>,
    all: MoveList,
    m: int,
    cur: int,
)
    requires
        0 <= m < all.len(),
        0 <= cur < paths.len(),
        paths.len() >= 1,
        forall|p: int, q: int|
            0 <= p < q < paths.len() ==> #[trigger] paths[p] != #[trigger] paths[q],
        paths[cur] == all[m].0,
        labelled(old_names, paths, all.take(m)),
        new_names.len() == old_names.len(),
        forall|q: int| 0 <= q < old_names.len() && q != cur ==> new_names[q] == old_names[q],
        names_of(new_names[cur]@) == names_of(old_names[cur]@).push(all[m].1),
        forall|j: int| 0 <= j <= all[m].0.len() ==> known(paths, #[trigger] all[m].0.take(j)),
        forall|q: int|
            1 <= q < paths.len() ==> is_prefix_of_some(#[trigger] paths[q], all.take(m + 1)),
        forall|w: Seq<Symbol>| #[trigger] is_prefix_of_some(w, all.take(m)) ==> known(paths, w),
    ensures
        covers(paths, all.take(m + 1)),
        labelled(new_names, paths, all.take(m + 1)),
{
    let now = all.take(m + 1);
    assert(now.drop_last() =~= all.take(m));
    assert(now.last() == all[m]);
    assert forall|w: Seq<Symbol>| #[trigger] is_prefix_of_some(w, now) implies known(paths, w) by {
        let i = choose|i: int| 0 <= i < now.len() && w.is_prefix_of(#[trigger] now[i].0);
        if i < m {
            assert(w.is_prefix_of(all.take(m)[i].0));
            assert(is_prefix_of_some(w, all.take(m)));
        } else {
            assert(w =~= all[m].0.take(w.len() as int));
        }
    }
    assert forall|q: int| 0 <= q < paths.len() implies names_of((#[trigger] new_names[q])@)
        == names_for(paths[q], now) by {
        if q < cur {
            assert(paths[q] != paths[cur]);
        }
        if cur < q {
            assert(paths[cur] != paths[q]);
        }
    }
}

/// A tree has one path for each state.
pub(crate) proof fn lemma_same_path(
    edges: Table,
    one: Seq<Seq<Symbol>>,
    other: Seq<Seq<Symbol>>,
    q: State,
)
    requires
        linked(edges, one),
        linked(edges, other),
        one.len() == other.len(),
        q < one.len(),
    ensures
        one[q as int] == other[q as int],
    decreases one[q as int].len(),
{
    if q != 0 {
        assert(has_parent(edges, q));
        let (p, a) = choose|p: State, a: Symbol| #[trigger] has_edge(edges, p, a, q);
        assert(edges.contains_key(key(p, a)));
        assert(one[q as int] == one[p as int].push(a));
        assert(other[q as int] == other[p as int].push(a));
        lemma_same_path(edges, one, other, p);
    } else {
        assert(one[q as int] =~= other[q as int]);
    }
}

/// The paths of a tree are determined by its table and the number of its
/// states.
pub(crate) proof fn lemma_paths_unique(
    edges: Table,
    one: Seq<Seq<Symbol>>,
    other: Seq<Seq<Symbol>>,
)
    requires
        linked(edges, other),
        other.len() <= usize::MAX,
    ensures
        linked(edges, one) && one.len() == other.len() ==> one == other,
{
    if linked(edges, one) && one.len() == other.len() {
        assert forall|q: int| 0 <= q < one.len() implies one[q] == other[q] by {
            lemma_same_path(edges, one, other, q as State);
        }
        assert(one =~= other);
    }
}

} // verus!
