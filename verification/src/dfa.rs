//! Deterministic automata, and their construction from a nondeterministic
//! automaton by the subset construction.

use crate::nfa::{Nfa, NfaEdge, NfaState, NfaTrans};
use crate::state_set::{lemma_code_bound, NfaStateSet};
use crate::walks::{closure, is_closed, move_on, step, NfaModel};
use crate::walks::{
    lemma_accepts_by_frontier, lemma_closure_closed, lemma_closure_extensive,
    lemma_closure_of_closed, lemma_step_of_empty, lemma_step_without_transition,
};
use vstd::arithmetic::power2::pow2;
use vstd::prelude::*;

verus! {

/// A state of a deterministic automaton: the position of its set of states
/// among those discovered.
#[derive(Debug, Clone, Copy, PartialEq, Eq, Hash, Structural)]
pub struct DfaState(pub usize);

/// The label of a transition of a deterministic automaton.
#[derive(Debug, Clone, Copy, PartialEq, Eq, Hash, Structural)]
pub struct DfaTrans(pub char);

/// A transition out of a state of a deterministic automaton.
#[derive(Debug, Clone, Copy, PartialEq, Eq, Hash, Structural)]
pub struct DfaEdge {
    pub label: DfaTrans,
    pub to: DfaState,
}

/// The mathematical value of a deterministic automaton: a start state, at most
/// one transition for each state and character, and the accepting states.
pub struct DfaModel {
    pub start: DfaState,
    pub trans: Map<(DfaState, char), DfaState>,
    pub accepts: Set<DfaState>,
}

impl DfaModel {
    /// The state reached from the start state by reading `w`, if every
    /// transition on the way exists.
    pub open spec fn run(self, w: Seq<char>) -> Option<DfaState>
        decreases w.len(),
    {
        if w.len() == 0 {
            Some(self.start)
        } else {
            match self.run(w.drop_last()) {
                None => None,
                Some(q) => if self.trans.contains_key((q, w.last())) {
                    Some(self.trans[(q, w.last())])
                } else {
                    None
                },
            }
        }
    }

    /// Whether reading the whole of `w` ends in an accepting state.
    pub open spec fn accepts(self, w: Seq<char>) -> bool {
        self.run(w) matches Some(q) && self.accepts.contains(q)
    }
}

/// Once a transition is missing, no longer input is read to the end.
pub proof fn lemma_run_stays_stuck(m: DfaModel, w: Seq<char>, rest: Seq<char>)
    requires
        m.run(w) is None,
    ensures
        m.run(w + rest) is None,
    decreases rest.len(),
{
    if rest.len() == 0 {
        assert(w + rest =~= w);
    } else {
        lemma_run_stays_stuck(m, w, rest.drop_last());
        assert((w + rest).drop_last() =~= w + rest.drop_last());
    }
}

/// The target of the transition labelled `c` in a row of transitions.
pub open spec fn row_target(row: Seq<DfaEdge>, c: char) -> Option<DfaState> {
    if exists|k: int| 0 <= k < row.len() && (#[trigger] row[k]).label == DfaTrans(c) {
        Some(row[choose|k: int| 0 <= k < row.len() && (#[trigger] row[k]).label == DfaTrans(c)].to)
    } else {
        None
    }
}

/// Whether no two transitions of a row have the same label.
pub open spec fn distinct_labels(row: Seq<DfaEdge>) -> bool {
    forall|j: int, k: int|
        0 <= j < k < row.len() ==> (#[trigger] row[j]).label != (#[trigger] row[k]).label
}

/// The transition table that rows of transitions stand for.
pub open spec fn table_of(rows: Seq<Seq<DfaEdge>>) -> Map<(DfaState, char), DfaState> {
    Map::new(
        |key: (DfaState, char)|
            key.0.0 < rows.len() && row_target(rows[key.0.0 as int], key.1) is Some,
        |key: (DfaState, char)| row_target(rows[key.0.0 as int], key.1)->Some_0,
    )
}

/// Whether `s` is a set of states that `nfa` can be in after reading some
/// word, with at least one state in it.
pub open spec fn reached(nfa: NfaModel, s: Set<NfaState>) -> bool {
    s != Set::<NfaState>::empty() && exists|w: Seq<char>| #[trigger] nfa.frontier(w) == s
}

/// Whether an automaton with these transitions and accepting states, whose
/// state `i` stands for the set `sets[i]`, is the subset construction of
/// `nfa`: state 0 stands for the closure of the start state, no two states
/// stand for the same set, every state stands for a set that `nfa` reaches,
/// each transition leads to the state that stands for the step of the set it
/// leaves, a transition is missing exactly where that step is empty, and a
/// state accepts exactly when its set holds the accept state of `nfa`.
pub open spec fn subset_construction(m: DfaModel, sets: Seq<Set<NfaState>>, nfa: NfaModel) -> bool {
    &&& sets.len() > 0
    &&& m.start == DfaState(0)
    &&& sets[0] == closure(nfa.edges, set![nfa.start])
    &&& forall|i: int, j: int| 0 <= i < j < sets.len() ==> #[trigger] sets[i] != #[trigger] sets[j]
    &&& forall|i: int| 0 <= i < sets.len() ==> reached(nfa, #[trigger] sets[i])
    &&& forall|q: DfaState, c: char|
        q.0 < sets.len() ==> follows(
            m,
            sets,
            #[trigger] step(nfa.edges, sets[q.0 as int], NfaTrans::Char(c)),
            q,
            c,
        )
    &&& forall|q: DfaState|
        q.0 < sets.len() ==> (#[trigger] m.accepts.contains(q) <==> sets[q.0 as int].contains(
            nfa.accept,
        ))
}

/// Whether the transition of state `q` on `c` is as the set `next`, the step
/// of the set of state `q`, asks: missing if `next` is empty, and else to
/// the state that stands for `next`.
pub open spec fn follows(
    m: DfaModel,
    sets: Seq<Set<NfaState>>,
    next: Set<NfaState>,
    q: DfaState,
    c: char,
) -> bool {
    let key = (q, c);
    if next == Set::<NfaState>::empty() {
        !m.trans.contains_key(key)
    } else {
        m.trans.contains_key(key) && m.trans[key].0 < sets.len() && sets[m.trans[key].0 as int]
            == next
    }
}

/// While a subset construction reads a word it is in the state that stands
/// for the frontier of the nondeterministic automaton, and it is stuck
/// exactly when that frontier is empty.
pub proof fn lemma_run_tracks_frontier(
    m: DfaModel,
    sets: Seq<Set<NfaState>>,
    nfa: NfaModel,
    w: Seq<char>,
)
    requires
        subset_construction(m, sets, nfa),
    ensures
        match m.run(w) {
            Some(q) => q.0 < sets.len() && sets[q.0 as int] == nfa.frontier(w),
            None => nfa.frontier(w) == Set::<NfaState>::empty(),
        },
    decreases w.len(),
{
    if w.len() > 0 {
        let w0 = w.drop_last();
        let c = w.last();
        lemma_run_tracks_frontier(m, sets, nfa, w0);
        match m.run(w0) {
            None => {
                lemma_step_of_empty(nfa.edges, NfaTrans::Char(c));
            },
            Some(q) => {
                assert(follows(
                    m,
                    sets,
                    step(nfa.edges, sets[q.0 as int], NfaTrans::Char(c)),
                    q,
                    c,
                ));
            },
        }
    }
}

/// The two engines agree: a subset construction accepts exactly the words
/// that the nondeterministic automaton accepts.
pub proof fn lemma_subset_construction_agrees(
    m: DfaModel,
    sets: Seq<Set<NfaState>>,
    nfa: NfaModel,
    w: Seq<char>,
)
    requires
        subset_construction(m, sets, nfa),
    ensures
        m.accepts(w) <==> nfa.accepts(w),
{
    lemma_run_tracks_frontier(m, sets, nfa, w);
    lemma_accepts_by_frontier(nfa, w);
}

/// A transition out of a set of states on a character, with the set of
/// states that it leads to.
#[derive(Debug)]
pub struct DfaMove {
    pub label: DfaTrans,
    pub target: NfaStateSet,
}

/// Whether some transition labelled `c` leaves a state of `s`.
pub open spec fn leaves(edges: Set<NfaEdge>, s: Set<NfaState>, c: char) -> bool {
    exists|e: NfaEdge| #[trigger]
        edges.contains(e) && s.contains(e.from) && e.label == NfaTrans::Char(c)
}

/// Where a transition labelled `c` leaves a state of `s`, the step of `s` on
/// `c` has a state.
pub proof fn lemma_step_has_state(edges: Set<NfaEdge>, s: Set<NfaState>, c: char)
    requires
        leaves(edges, s, c),
    ensures
        step(edges, s, NfaTrans::Char(c)) != Set::<NfaState>::empty(),
{
    let e = choose|e: NfaEdge| #[trigger]
        edges.contains(e) && s.contains(e.from) && e.label == NfaTrans::Char(c);
    let moved = move_on(edges, closure(edges, s), NfaTrans::Char(c));
    lemma_closure_extensive(edges, s);
    assert(moved.contains(e.to));
    lemma_closure_extensive(edges, moved);
    assert(step(edges, s, NfaTrans::Char(c)).contains(e.to));
}

/// Whether `moves` has an entry for the character `c`.
pub open spec fn listed(moves: Seq<DfaMove>, c: char) -> bool {
    exists|k: int| 0 <= k < moves.len() && (#[trigger] moves[k]).label == DfaTrans(c)
}

/// Whether `moves` lists, once each, the characters on which a transition
/// leaves a state of `s`, each with the step of `s` on it.
pub open spec fn lists_moves(edges: Set<NfaEdge>, s: Set<NfaState>, moves: Seq<DfaMove>) -> bool {
    &&& forall|j: int, k: int|
        0 <= j < k < moves.len() ==> (#[trigger] moves[j]).label != (#[trigger] moves[k]).label
    &&& forall|k: int|
        0 <= k < moves.len() ==> leaves(edges, s, (#[trigger] moves[k]).label.0) && moves[k].target@
            == step(edges, s, NfaTrans::Char(moves[k].label.0))
    &&& forall|c: char| #[trigger] leaves(edges, s, c) ==> listed(moves, c)
}

/// Whether one of `sets` holds exactly the states of `target`.
pub open spec fn known(sets: Seq<NfaStateSet>, target: Set<NfaState>) -> bool {
    exists|j: int| 0 <= j < sets.len() && (#[trigger] sets[j])@ == target
}

/// Whether the target of each of `moves` is one of `sets`, and fits the
/// automaton with this limit.
pub open spec fn resolved(sets: Seq<NfaStateSet>, moves: Seq<DfaMove>, limit: nat) -> bool {
    forall|k: int|
        0 <= k < moves.len() ==> known(sets, (#[trigger] moves[k]).target@) && moves[k].target.wf()
            && moves[k].target.capacity() == limit
}

/// What is known of a list of sets stays known when the list grows.
pub proof fn lemma_resolved_grows(
    sets: Seq<NfaStateSet>,
    more: Seq<NfaStateSet>,
    moves: Seq<DfaMove>,
    limit: nat,
)
    requires
        resolved(sets, moves, limit),
        sets.len() <= more.len(),
        forall|j: int| 0 <= j < sets.len() ==> sets[j] == more[j],
    ensures
        resolved(more, moves, limit),
{
    assert forall|k: int| 0 <= k < moves.len() implies known(
        more,
        (#[trigger] moves[k]).target@,
    ) by {
        let j = choose|j: int| 0 <= j < sets.len() && (#[trigger] sets[j])@ == moves[k].target@;
        assert(more[j]@ == moves[k].target@);
    }
}

/// Distinct numbers from zero up to a bound are no more than the bound.
pub proof fn lemma_distinct_bound(codes: Seq<int>, bound: int)
    requires
        0 <= bound,
        codes.no_duplicates(),
        forall|i: int| 0 <= i < codes.len() ==> 0 <= #[trigger] codes[i] < bound,
    ensures
        codes.len() <= bound,
{
    if codes.len() > 0 {
        assert(0 <= codes[0] < bound);
        codes.unique_seq_to_set();
        vstd::set_lib::lemma_int_range(0, bound);
        let range = vstd::set_lib::set_int_range(0, bound);
        assert(codes.to_set().subset_of(range)) by {
            assert forall|x: int| codes.to_set().contains(x) implies range.contains(x) by {
                let i = choose|i: int| 0 <= i < codes.len() && codes[i] == x;
            }
        }
        vstd::set_lib::lemma_len_subset(codes.to_set(), range);
    }
}

/// The rows of a table that number the targets of the moves of each set give
/// each state the transition that the step of its set asks for.
pub proof fn lemma_rows_follow(
    rows: Seq<Seq<DfaEdge>>,
    moves: Seq<DfaMove>,
    sets: Seq<Set<NfaState>>,
    m: DfaModel,
    nfa: NfaModel,
    q: DfaState,
    c: char,
)
    requires
        m.trans == table_of(rows),
        rows.len() == sets.len(),
        q.0 < sets.len(),
        is_closed(nfa.edges, sets[q.0 as int]),
        lists_moves(nfa.edges, sets[q.0 as int], moves),
        rows[q.0 as int].len() == moves.len(),
        forall|k: int|
            0 <= k < moves.len() ==> (#[trigger] rows[q.0 as int][k]).label == moves[k].label
                && rows[q.0 as int][k].to.0 < sets.len() && sets[rows[q.0 as int][k].to.0 as int]
                == moves[k].target@,
    ensures
        follows(m, sets, step(nfa.edges, sets[q.0 as int], NfaTrans::Char(c)), q, c),
        distinct_labels(rows[q.0 as int]),
{
    let i = q.0 as int;
    let row = rows[i];
    let s = sets[i];
    let label = NfaTrans::Char(c);
    let key = (q, c);
    assert(distinct_labels(row)) by {
        assert forall|j: int, k: int| 0 <= j < k < row.len() implies (#[trigger] row[j]).label != (
        #[trigger] row[k]).label by {
            assert(moves[j].label != moves[k].label);
        }
    }
    lemma_closure_of_closed(nfa.edges, s);
    if listed(moves, c) {
        let k = choose|k: int| 0 <= k < moves.len() && (#[trigger] moves[k]).label == DfaTrans(c);
        assert(row[k].label == DfaTrans(c));
        let found = choose|k: int| 0 <= k < row.len() && (#[trigger] row[k]).label == DfaTrans(c);
        assert(found == k);
        assert(row_target(row, c) == Some(row[k].to));
        assert(m.trans.contains_key(key));
        lemma_step_has_state(nfa.edges, s, c);
    } else {
        assert(!leaves(nfa.edges, s, c));
        assert(row_target(row, c) is None) by {
            if exists|k: int| 0 <= k < row.len() && (#[trigger] row[k]).label == DfaTrans(c) {
                let k = choose|k: int|
                    0 <= k < row.len() && (#[trigger] row[k]).label == DfaTrans(c);
                assert(moves[k].label == DfaTrans(c));
            }
        }
        lemma_step_without_transition(nfa.edges, s, c);
    }
}

/// A deterministic automaton, with the set of states of the nondeterministic
/// automaton that each of its states stands for.
#[derive(Debug)]
pub struct Dfa {
    start: DfaState,
    states: Vec<Vec<DfaEdge>>,
    accepts: Vec<bool>,
    sets: Vec<NfaStateSet>,
}

impl View for Dfa {
    type V = DfaModel;

    closed spec fn view(&self) -> DfaModel {
        DfaModel {
            start: self.start,
            trans: table_of(self.rows()),
            accepts: Set::new(|q: DfaState| q.0 < self.accepts@.len() && self.accepts@[q.0 as int]),
        }
    }
}

/// The sets of states discovered so far, in the order of their discovery,
/// and the moves of those that were worked off.
struct Env {
    sets: Vec<NfaStateSet>,
    moves: Vec<Vec<DfaMove>>,
}

impl Env {
    /// Whether the sets are sets of states of an automaton with this limit,
    /// no two of them the same, and no more moves are kept than sets.
    spec fn wf(&self, limit: nat) -> bool {
        &&& self.moves@.len() <= self.sets@.len()
        &&& forall|i: int|
            0 <= i < self.sets@.len() ==> (#[trigger] self.sets@[i]).wf()
                && self.sets@[i].capacity() == limit
        &&& forall|i: int, j: int|
            0 <= i < j < self.sets@.len() ==> (#[trigger] self.sets@[i])@ != (
            #[trigger] self.sets@[j])@ && self.sets@[i].code() != self.sets@[j].code()
    }

    /// Nothing discovered yet.
    fn new() -> (env: Env)
        ensures
            env.sets@.len() == 0,
            env.moves@.len() == 0,
            forall|limit: nat| env.wf(limit),
    {
        Env { sets: Vec::new(), moves: Vec::new() }
    }

    /// The state that stands for a set, if the set was discovered.
    fn lookup(&self, nstat: &NfaStateSet) -> (found: Option<DfaState>)
        requires
            nstat.wf(),
            self.wf(nstat.capacity()),
        ensures
            match found {
                Some(q) => q.0 < self.sets@.len() && self.sets@[q.0 as int]@ == nstat@,
                None => forall|i: int|
                    0 <= i < self.sets@.len() ==> (#[trigger] self.sets@[i])@ != nstat@
                        && self.sets@[i].code() != nstat.code(),
            },
    {
        let mut i: usize = 0;
        while i < self.sets.len()
            invariant
                i <= self.sets@.len(),
                nstat.wf(),
                self.wf(nstat.capacity()),
                forall|j: int|
                    0 <= j < i ==> (#[trigger] self.sets@[j])@ != nstat@ && self.sets@[j].code()
                        != nstat.code(),
            decreases self.sets@.len() - i,
        {
            if self.sets[i].same_as(nstat) {
                return Some(DfaState(i));
            }
            i += 1;
        }
        None
    }

    /// Discovers a set: it gets the next number unless it is known already.
    /// Tells whether the set was new.
    fn insert(&mut self, nstat: NfaStateSet) -> (fresh: bool)
        requires
            nstat.wf(),
            old(self).wf(nstat.capacity()),
        ensures
            final(self).wf(nstat.capacity()),
            final(self).moves == old(self).moves,
            known(final(self).sets@, nstat@),
            fresh ==> final(self).sets@ == old(self).sets@.push(nstat),
            !fresh ==> final(self).sets@ == old(self).sets@,
            fresh == !known(old(self).sets@, nstat@),
    {
        match self.lookup(&nstat) {
            Some(q) => {
                assert(self.sets@[q.0 as int]@ == nstat@);
                false
            },
            None => {
                let ghost before = self.sets@;
                self.sets.push(nstat);
                assert(self.sets@[before.len() as int]@ == nstat@);
                assert(!known(before, nstat@)) by {
                    if known(before, nstat@) {
                        let j = choose|j: int|
                            0 <= j < before.len() && (#[trigger] before[j])@ == nstat@;
                    }
                }
                true
            },
        }
    }

    /// The table of transitions: for each set its moves, each target replaced
    /// by the state that stands for it. Hands back the sets as well.
    fn into_dfa_states(self, Ghost(limit): Ghost<nat>) -> (r: (Vec<Vec<DfaEdge>>, Vec<NfaStateSet>))
        requires
            self.wf(limit),
            self.moves@.len() == self.sets@.len(),
            forall|i: int|
                0 <= i < self.moves@.len() ==> resolved(
                    self.sets@,
                    (#[trigger] self.moves@[i])@,
                    limit,
                ),
        ensures
            r.1@ == self.sets@,
            r.0@.len() == self.sets@.len(),
            forall|i: int|
                0 <= i < r.0@.len() ==> numbered(
                    (#[trigger] r.0@[i])@,
                    self.moves@[i]@,
                    self.sets@,
                ),
    {
        let mut states: Vec<Vec<DfaEdge>> = Vec::new();
        let mut i: usize = 0;
        while i < self.moves.len()
            invariant
                i <= self.moves@.len(),
                self.wf(limit),
                self.moves@.len() == self.sets@.len(),
                forall|i: int|
                    0 <= i < self.moves@.len() ==> resolved(
                        self.sets@,
                        (#[trigger] self.moves@[i])@,
                        limit,
                    ),
                states@.len() == i,
                forall|j: int|
                    0 <= j < i ==> numbered((#[trigger] states@[j])@, self.moves@[j]@, self.sets@),
            decreases self.moves@.len() - i,
        {
            let moves = &self.moves[i];
            assert(resolved(self.sets@, moves@, limit));
            let mut row: Vec<DfaEdge> = Vec::new();
            let mut k: usize = 0;
            while k < moves.len()
                invariant
                    k <= moves@.len(),
                    self.wf(limit),
                    resolved(self.sets@, moves@, limit),
                    row@.len() == k,
                    forall|j: int|
                        0 <= j < k ==> (#[trigger] row@[j]).label == moves@[j].label && row@[j].to.0
                            < self.sets@.len() && self.sets@[row@[j].to.0 as int]@
                            == moves@[j].target@,
                decreases moves@.len() - k,
            {
                let target = &moves[k].target;
                assert(known(self.sets@, moves@[k as int].target@));
                let to = match self.lookup(target) {
                    Some(q) => q,
                    None => {
                        proof {
                            let j = choose|j: int|
                                0 <= j < self.sets@.len() && (#[trigger] self.sets@[j])@ == target@;
                            assert(false);
                        }
                        DfaState(0)
                    },
                };
                row.push(DfaEdge { label: moves[k].label, to });
                k += 1;
            }
            states.push(row);
            i += 1;
        }
        (states, self.sets)
    }
}

/// Whether `row` is `moves` with each target replaced by the position of a
/// set of `sets` that holds the same states.
pub open spec fn numbered(row: Seq<DfaEdge>, moves: Seq<DfaMove>, sets: Seq<NfaStateSet>) -> bool {
    &&& row.len() == moves.len()
    &&& forall|k: int|
        0 <= k < row.len() ==> (#[trigger] row[k]).label == moves[k].label && row[k].to.0
            < sets.len() && sets[row[k].to.0 as int]@ == moves[k].target@
}

/// What is listed stays listed when a move is added, and the added move is
/// listed.
pub proof fn lemma_listed_push(moves: Seq<DfaMove>, added: DfaMove, c: char)
    ensures
        listed(moves, c) ==> listed(moves.push(added), c),
        listed(moves.push(added), added.label.0),
        listed(moves.push(added), c) ==> listed(moves, c) || added.label == DfaTrans(c),
{
    let more = moves.push(added);
    if listed(moves, c) {
        let k = choose|k: int| 0 <= k < moves.len() && (#[trigger] moves[k]).label == DfaTrans(c);
        assert(more[k].label == DfaTrans(c));
    }
    assert(more[moves.len() as int].label == DfaTrans(added.label.0));
    if listed(more, c) {
        let k = choose|k: int| 0 <= k < more.len() && (#[trigger] more[k]).label == DfaTrans(c);
        if k < moves.len() {
            assert(moves[k].label == DfaTrans(c));
        }
    }
}

impl Nfa {
    /// The moves out of a set of states: each character on which a transition
    /// leaves one of the states, once, with the step of the set on it.
    pub fn transition_map_of(&self, states: &NfaStateSet) -> (nexts: Vec<DfaMove>)
        requires
            states.wf(),
            states.capacity() == self.limit(),
        ensures
            lists_moves(self@.edges, states@, nexts@),
            forall|k: int|
                0 <= k < nexts@.len() ==> (#[trigger] nexts@[k]).target.wf()
                    && nexts@[k].target.capacity() == self.limit(),
    {
        let edges = self.states();
        let ghost all = self@.edges;
        let mut nexts: Vec<DfaMove> = Vec::new();
        let mut i: usize = 0;
        while i < edges.len()
            invariant
                i <= edges@.len(),
                edges@ == self.edge_list(),
                all == self@.edges,
                states.wf(),
                states.capacity() == self.limit(),
                forall|j: int, k: int|
                    0 <= j < k < nexts@.len() ==> (#[trigger] nexts@[j]).label != (
                    #[trigger] nexts@[k]).label,
                forall|k: int|
                    0 <= k < nexts@.len() ==> leaves(all, states@, (#[trigger] nexts@[k]).label.0)
                        && nexts@[k].target@ == step(
                        all,
                        states@,
                        NfaTrans::Char(nexts@[k].label.0),
                    ) && nexts@[k].target.wf() && nexts@[k].target.capacity() == self.limit(),
                forall|j: int, c: char|
                    0 <= j < i && states@.contains((#[trigger] edges@[j]).from) && edges@[j].label
                        == NfaTrans::Char(c) ==> #[trigger] listed(nexts@, c),
            decreases edges@.len() - i,
        {
            let e = edges[i];
            let ghost before = nexts@;
            assert(all.contains(e));
            match e.label {
                NfaTrans::Epsilon => {},
                NfaTrans::Char(c) => {
                    if states.contains(&e.from) && !has_move(&nexts, c) {
                        let target = self.states_next(states, &NfaTrans::Char(c));
                        let added = DfaMove { label: DfaTrans(c), target };
                        nexts.push(added);
                        proof {
                            assert(leaves(all, states@, c));
                            assert forall|j: int, d: char|
                                0 <= j < i + 1 && states@.contains((#[trigger] edges@[j]).from)
                                    && edges@[j].label == NfaTrans::Char(d) implies #[trigger] listed(
                                nexts@,
                                d,
                            ) by {
                                lemma_listed_push(before, added, d);
                            }
                            assert forall|j: int, k: int|
                                0 <= j < k < nexts@.len() implies (#[trigger] nexts@[j]).label != (
                            #[trigger] nexts@[k]).label by {
                                if k == before.len() {
                                    assert(before[j].label != DfaTrans(c));
                                }
                            }
                        }
                    }
                },
            }
            i += 1;
        }
        proof {
            assert forall|c: char| #[trigger] leaves(all, states@, c) implies listed(nexts@, c) by {
                let e = choose|e: NfaEdge| #[trigger]
                    all.contains(e) && states@.contains(e.from) && e.label == NfaTrans::Char(c);
                let j = choose|j: int| 0 <= j < edges@.len() && edges@[j] == e;
                assert(states@.contains(edges@[j].from) && edges@[j].label == NfaTrans::Char(c));
            }
        }
        nexts
    }
}

/// Whether a list of moves has one for the character `c`.
fn has_move(moves: &Vec<DfaMove>, c: char) -> (found: bool)
    ensures
        found == listed(moves@, c),
{
    let mut k: usize = 0;
    while k < moves.len()
        invariant
            k <= moves@.len(),
            forall|j: int| 0 <= j < k ==> (#[trigger] moves@[j]).label != DfaTrans(c),
        decreases moves@.len() - k,
    {
        if moves[k].label.0 == c {
            return true;
        }
        k += 1;
    }
    false
}

/// The target of the transition labelled `c` in a row, if the row has one.
fn lookup_row(row: &Vec<DfaEdge>, c: char) -> (found: Option<DfaState>)
    requires
        distinct_labels(row@),
    ensures
        found == row_target(row@, c),
        found matches Some(to) ==> exists|k: int|
            0 <= k < row@.len() && (#[trigger] row@[k]).to == to,
{
    let mut k: usize = 0;
    while k < row.len()
        invariant
            k <= row@.len(),
            distinct_labels(row@),
            forall|j: int| 0 <= j < k ==> (#[trigger] row@[j]).label != DfaTrans(c),
        decreases row@.len() - k,
    {
        if row[k].label.0 == c {
            proof {
                let found = choose|j: int|
                    0 <= j < row@.len() && (#[trigger] row@[j]).label == DfaTrans(c);
                assert(found == k);
            }
            return Some(row[k].to);
        }
        k += 1;
    }
    None
}

impl Dfa {
    /// The transitions out of each state.
    pub closed spec fn rows(&self) -> Seq<Seq<DfaEdge>> {
        self.states@.map_values(|row: Vec<DfaEdge>| row@)
    }

    /// The set of states of the nondeterministic automaton that each state
    /// stands for.
    pub closed spec fn state_sets(&self) -> Seq<Set<NfaState>> {
        self.sets@.map_values(|s: NfaStateSet| s@)
    }

    /// Every state has a row of transitions and an accept flag, every
    /// transition leads to a state, and no row has two for one character.
    #[verifier::type_invariant]
    spec fn inv(&self) -> bool {
        &&& self.start.0 < self.states@.len()
        &&& self.accepts@.len() == self.states@.len()
        &&& forall|i: int|
            0 <= i < self.states@.len() ==> ends_below(
                #[trigger] self.states@[i]@,
                self.states@.len(),
            )
        &&& forall|i: int|
            0 <= i < self.states@.len() ==> distinct_labels(#[trigger] self.states@[i]@)
    }

    /// Whether this automaton is the subset construction of `nfa`.
    pub open spec fn determinizes(&self, nfa: NfaModel) -> bool {
        subset_construction(self@, self.state_sets(), nfa)
    }

    /// The two engines agree: an automaton that is the subset construction of
    /// `nfa` accepts a word exactly when `nfa` does.
    pub proof fn lemma_engines_agree(&self, nfa: NfaModel, w: Seq<char>)
        requires
            self.determinizes(nfa),
        ensures
            self@.accepts(w) <==> nfa.accepts(w),
    {
        lemma_subset_construction_agrees(self@, self.state_sets(), nfa, w);
    }

    /// The subset construction of a nondeterministic automaton: it accepts
    /// the same words.
    pub fn from(value: Nfa) -> (dfa: Dfa)
        ensures
            dfa.determinizes(value@),
            forall|w: Seq<char>| dfa@.accepts(w) <==> value@.accepts(w),
    {
        let ghost nfa = value@;
        let ghost limit = value.limit();
        let mut env = Env::new();
        let first = value.next(&value.start(), &NfaTrans::Epsilon);
        env.insert(first);
        proof {
            lemma_closure_closed(nfa.edges, set![nfa.start]);
            lemma_closure_extensive(nfa.edges, set![nfa.start]);
            assert(set![nfa.start].contains(nfa.start));
            assert(nfa.frontier(Seq::empty()) == env.sets@[0]@);
        }
        let mut done: usize = 0;
        while done < env.sets.len()
            invariant
                nfa == value@,
                limit == value.limit(),
                env.wf(limit),
                env.moves@.len() == done,
                done <= env.sets@.len(),
                0 < env.sets@.len(),
                env.sets@[0]@ == closure(nfa.edges, set![nfa.start]),
                forall|i: int|
                    0 <= i < env.sets@.len() ==> is_closed(nfa.edges, (#[trigger] env.sets@[i])@)
                        && reached(nfa, env.sets@[i]@),
                forall|i: int|
                    0 <= i < done ==> lists_moves(
                        nfa.edges,
                        env.sets@[i]@,
                        (#[trigger] env.moves@[i])@,
                    ) && resolved(env.sets@, env.moves@[i]@, limit),
            decreases pow2(limit) - done,
        {
            proof {
                let codes = Seq::new(env.sets@.len(), |i: int| env.sets@[i].code() as int);
                assert forall|i: int| 0 <= i < codes.len() implies 0 <= #[trigger] codes[i] < pow2(
                    limit,
                ) by {
                    lemma_code_bound(env.sets@[i]);
                }
                lemma_distinct_bound(codes, pow2(limit) as int);
            }
            let moves = value.transition_map_of(&env.sets[done]);
            let ghost current = env.sets@[done as int]@;
            let ghost sets_before = env.sets@;
            let ghost moves_before = env.moves@;
            let mut k: usize = 0;
            while k < moves.len()
                invariant
                    k <= moves@.len(),
                    nfa == value@,
                    limit == value.limit(),
                    env.wf(limit),
                    env.moves@ == moves_before,
                    sets_before.len() <= env.sets@.len(),
                    forall|j: int| 0 <= j < sets_before.len() ==> env.sets@[j] == sets_before[j],
                    lists_moves(nfa.edges, current, moves@),
                    forall|j: int|
                        0 <= j < moves@.len() ==> (#[trigger] moves@[j]).target.wf()
                            && moves@[j].target.capacity() == limit,
                    reached(nfa, current),
                    forall|i: int|
                        0 <= i < env.sets@.len() ==> is_closed(
                            nfa.edges,
                            (#[trigger] env.sets@[i])@,
                        ) && reached(nfa, env.sets@[i]@),
                    forall|j: int| 0 <= j < k ==> known(env.sets@, (#[trigger] moves@[j]).target@),
                decreases moves@.len() - k,
            {
                let ghost prev = env.sets@;
                let target = moves[k].target.clone();
                proof {
                    let c = moves@[k as int].label.0;
                    lemma_closure_closed(
                        nfa.edges,
                        move_on(nfa.edges, closure(nfa.edges, current), NfaTrans::Char(c)),
                    );
                    lemma_step_has_state(nfa.edges, current, c);
                    let w = choose|w: Seq<char>| #[trigger] nfa.frontier(w) == current;
                    assert(w.push(c).drop_last() =~= w);
                    assert(nfa.frontier(w.push(c)) == target@);
                    assert(reached(nfa, target@));
                }
                env.insert(target);
                proof {
                    assert forall|j: int| 0 <= j < k + 1 implies known(
                        env.sets@,
                        (#[trigger] moves@[j]).target@,
                    ) by {
                        if j < k {
                            let at = choose|at: int|
                                0 <= at < prev.len() && (#[trigger] prev[at])@ == moves@[j].target@;
                            assert(env.sets@[at]@ == moves@[j].target@);
                        }
                    }
                }
                k += 1;
            }
            proof {
                assert(resolved(env.sets@, moves@, limit));
                assert forall|i: int| 0 <= i < done implies resolved(
                    env.sets@,
                    (#[trigger] env.moves@[i])@,
                    limit,
                ) by {
                    lemma_resolved_grows(sets_before, env.sets@, env.moves@[i]@, limit);
                }
            }
            env.moves.push(moves);
            done += 1;
        }
        let accept = value.accept();
        let mut accepts: Vec<bool> = Vec::new();
        let mut i: usize = 0;
        while i < env.sets.len()
            invariant
                i <= env.sets@.len(),
                accepts@.len() == i,
                forall|j: int| 0 <= j < i ==> accepts@[j] == env.sets@[j]@.contains(accept),
            decreases env.sets@.len() - i,
        {
            accepts.push(env.sets[i].contains(&accept));
            i += 1;
        }
        let ghost found = env.sets@;
        let ghost moves = env.moves@;
        let (states, sets) = env.into_dfa_states(Ghost(limit));
        let ghost rows = states@.map_values(|row: Vec<DfaEdge>| row@);
        let ghost held = sets@.map_values(|s: NfaStateSet| s@);
        let ghost table = DfaModel {
            start: DfaState(0),
            trans: table_of(rows),
            accepts: Set::new(|q: DfaState| q.0 < accepts@.len() && accepts@[q.0 as int]),
        };
        proof {
            assert forall|q: DfaState, c: char| q.0 < held.len() implies follows(
                table,
                held,
                #[trigger] step(nfa.edges, held[q.0 as int], NfaTrans::Char(c)),
                q,
                c,
            ) by {
                assert(numbered(states@[q.0 as int]@, moves[q.0 as int]@, found));
                lemma_rows_follow(rows, moves[q.0 as int]@, held, table, nfa, q, c);
            }
            assert forall|i: int| 0 <= i < states@.len() implies ends_below(
                #[trigger] states@[i]@,
                states@.len(),
            ) && distinct_labels(states@[i]@) by {
                assert(numbered(states@[i]@, moves[i]@, found));
                lemma_rows_follow(rows, moves[i]@, held, table, nfa, DfaState(i as usize), 'a');
            }
        }
        let dfa = Dfa { start: DfaState(0), states, accepts, sets };
        proof {
            assert(dfa@.accepts =~= table.accepts);
            assert(dfa@ == table);
            assert(dfa.state_sets() == held);
            assert(subset_construction(table, held, nfa));
            assert forall|w: Seq<char>| dfa@.accepts(w) <==> nfa.accepts(w) by {
                lemma_subset_construction_agrees(table, held, nfa, w);
            }
        }
        dfa
    }

    /// Whether the automaton accepts the whole of the input: it follows one
    /// transition for each character and fails where there is none.
    pub fn matches(&self, pattern: &str) -> (b: bool)
        ensures
            b == self@.accepts(pattern@),
    {
        proof {
            use_type_invariant(self);
        }
        let mut state = self.start;
        for c in it: pattern.chars()
            invariant
                it.seq() == pattern@,
                self.inv(),
                state.0 < self.states@.len(),
                self@.run(it.seq().take(it.index() as int)) == Some(state),
        {
            let ghost read = it.seq().take(it.index() as int);
            let ghost now = it.seq().take(it.index() + 1);
            proof {
                assert(now.drop_last() =~= read);
                assert(now.last() == c);
                assert(self.rows()[state.0 as int] == self.states@[state.0 as int]@);
            }
            match lookup_row(&self.states[state.0], c) {
                Some(next) => {
                    state = next;
                },
                None => {
                    proof {
                        let rest = it.seq().skip(it.index() + 1);
                        lemma_run_stays_stuck(self@, now, rest);
                        assert(now + rest =~= pattern@);
                    }
                    return false;
                },
            }
        }
        proof {
            assert(pattern@.take(pattern@.len() as int) =~= pattern@);
        }
        self.accepts[state.0]
    }
}

/// Whether every transition of a row leads to a state below `count`.
pub open spec fn ends_below(row: Seq<DfaEdge>, count: nat) -> bool {
    forall|k: int| 0 <= k < row.len() ==> (#[trigger] row[k]).to.0 < count
}

} // verus!
