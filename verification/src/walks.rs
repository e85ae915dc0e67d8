//! Walks through the transitions of an automaton: the words they spell, what a
//! state reaches, and the closure and step operations on sets of states.

use crate::nfa::{NfaEdge, NfaState, NfaTrans};
use vstd::prelude::*;

verus! {

/// The mathematical value of an automaton: a start state, an accept state, and
/// the set of its transitions.
pub struct NfaModel {
    pub start: NfaState,
    pub accept: NfaState,
    pub edges: Set<NfaEdge>,
}

/// The word `w` after a transition labelled `label` has been taken.
pub open spec fn extend(w: Seq<char>, label: NfaTrans) -> Seq<char> {
    match label {
        NfaTrans::Epsilon => w,
        NfaTrans::Char(c) => w.push(c),
    }
}

/// The word that a sequence of transitions spells: its characters in order.
pub open spec fn word(p: Seq<NfaEdge>) -> Seq<char>
    decreases p.len(),
{
    if p.len() == 0 {
        Seq::empty()
    } else {
        extend(word(p.drop_last()), p.last().label)
    }
}

/// Whether `p` is a walk from `a` to `b` along transitions of `edges`.
pub open spec fn is_path(edges: Set<NfaEdge>, p: Seq<NfaEdge>, a: NfaState, b: NfaState) -> bool
    decreases p.len(),
{
    if p.len() == 0 {
        a == b
    } else {
        &&& edges.contains(p.last())
        &&& p.last().to == b
        &&& is_path(edges, p.drop_last(), a, p.last().from)
    }
}

/// Whether some walk from `a` to `b` spells `w`.
pub open spec fn reach(edges: Set<NfaEdge>, a: NfaState, w: Seq<char>, b: NfaState) -> bool {
    exists|p: Seq<NfaEdge>| #[trigger] is_path(edges, p, a, b) && word(p) == w
}

/// The states reachable from a state of `s` by epsilon transitions alone.
pub open spec fn closure(edges: Set<NfaEdge>, s: Set<NfaState>) -> Set<NfaState> {
    Set::new(
        |b: NfaState|
            exists|a: NfaState| s.contains(a) && #[trigger] reach(edges, a, Seq::empty(), b),
    )
}

/// The targets of the transitions labelled `label` that leave a state of `s`.
pub open spec fn move_on(edges: Set<NfaEdge>, s: Set<NfaState>, label: NfaTrans) -> Set<NfaState> {
    Set::new(
        |b: NfaState|
            exists|e: NfaEdge|
                #[trigger] edges.contains(e) && s.contains(e.from) && e.label == label && e.to == b,
    )
}

/// The successor set of `s` under `label`: close, move, and close again; under
/// epsilon, the closure itself.
pub open spec fn step(edges: Set<NfaEdge>, s: Set<NfaState>, label: NfaTrans) -> Set<NfaState> {
    match label {
        NfaTrans::Epsilon => closure(edges, s),
        NfaTrans::Char(c) => closure(edges, move_on(edges, closure(edges, s), label)),
    }
}

/// Whether `s` contains the target of each epsilon transition that leaves it.
pub open spec fn is_closed(edges: Set<NfaEdge>, s: Set<NfaState>) -> bool {
    forall|e: NfaEdge|
        #[trigger] edges.contains(e) && e.label == NfaTrans::Epsilon && s.contains(e.from)
            ==> s.contains(e.to)
}

impl NfaModel {
    /// The set of states the automaton may be in after reading `w`, computed
    /// one character at a time from the closure of the start state.
    pub open spec fn frontier(self, w: Seq<char>) -> Set<NfaState>
        decreases w.len(),
    {
        if w.len() == 0 {
            closure(self.edges, set![self.start])
        } else {
            step(self.edges, self.frontier(w.drop_last()), NfaTrans::Char(w.last()))
        }
    }

    /// Whether the automaton accepts the whole of `w`: some walk from the start
    /// state to the accept state spells it.
    pub open spec fn accepts(self, w: Seq<char>) -> bool {
        reach(self.edges, self.start, w, self.accept)
    }
}

/// Every state reaches itself on the empty word.
pub proof fn lemma_reach_refl(edges: Set<NfaEdge>, a: NfaState)
    ensures
        reach(edges, a, Seq::empty(), a),
{
    assert(is_path(edges, Seq::<NfaEdge>::empty(), a, a));
    assert(word(Seq::<NfaEdge>::empty()) == Seq::<char>::empty());
}

/// A walk followed by one more transition is a walk.
pub proof fn lemma_reach_extend(edges: Set<NfaEdge>, a: NfaState, w: Seq<char>, e: NfaEdge)
    requires
        reach(edges, a, w, e.from),
        edges.contains(e),
    ensures
        reach(edges, a, extend(w, e.label), e.to),
{
    let p = choose|p: Seq<NfaEdge>| #[trigger] is_path(edges, p, a, e.from) && word(p) == w;
    let q = p.push(e);
    assert(q.drop_last() =~= p);
    assert(is_path(edges, q, a, e.to));
    assert(word(q) == extend(w, e.label));
}

/// Two walks that meet form one walk, which spells the two words in turn.
pub proof fn lemma_path_concat(
    edges: Set<NfaEdge>,
    p: Seq<NfaEdge>,
    q: Seq<NfaEdge>,
    a: NfaState,
    x: NfaState,
    b: NfaState,
)
    requires
        is_path(edges, p, a, x),
        is_path(edges, q, x, b),
    ensures
        is_path(edges, p + q, a, b),
        word(p + q) == word(p) + word(q),
    decreases q.len(),
{
    if q.len() == 0 {
        assert(p + q =~= p);
        assert(word(p) + word(q) =~= word(p));
    } else {
        let q0 = q.drop_last();
        lemma_path_concat(edges, p, q0, a, x, q.last().from);
        assert((p + q).drop_last() =~= p + q0);
        assert((p + q).last() == q.last());
        match q.last().label {
            NfaTrans::Epsilon => {},
            NfaTrans::Char(c) => {
                assert((word(p) + word(q0)).push(c) =~= word(p) + word(q0).push(c));
            },
        }
    }
}

/// Reaching is transitive, and the words are concatenated.
pub proof fn lemma_reach_trans(
    edges: Set<NfaEdge>,
    a: NfaState,
    w1: Seq<char>,
    x: NfaState,
    w2: Seq<char>,
    b: NfaState,
)
    requires
        reach(edges, a, w1, x),
        reach(edges, x, w2, b),
    ensures
        reach(edges, a, w1 + w2, b),
{
    let p = choose|p: Seq<NfaEdge>| #[trigger] is_path(edges, p, a, x) && word(p) == w1;
    let q = choose|q: Seq<NfaEdge>| #[trigger] is_path(edges, q, x, b) && word(q) == w2;
    lemma_path_concat(edges, p, q, a, x, b);
}

/// A walk in a set of transitions is a walk in every larger set.
pub proof fn lemma_path_mono(
    small: Set<NfaEdge>,
    large: Set<NfaEdge>,
    p: Seq<NfaEdge>,
    a: NfaState,
    b: NfaState,
)
    requires
        small.subset_of(large),
        is_path(small, p, a, b),
    ensures
        is_path(large, p, a, b),
    decreases p.len(),
{
    if p.len() > 0 {
        lemma_path_mono(small, large, p.drop_last(), a, p.last().from);
    }
}

/// What is reachable in a set of transitions is reachable in every larger set.
pub proof fn lemma_reach_mono(
    small: Set<NfaEdge>,
    large: Set<NfaEdge>,
    a: NfaState,
    w: Seq<char>,
    b: NfaState,
)
    requires
        small.subset_of(large),
        reach(small, a, w, b),
    ensures
        reach(large, a, w, b),
{
    let p = choose|p: Seq<NfaEdge>| #[trigger] is_path(small, p, a, b) && word(p) == w;
    lemma_path_mono(small, large, p, a, b);
}

/// A closure contains the set it was taken of.
pub proof fn lemma_closure_extensive(edges: Set<NfaEdge>, s: Set<NfaState>)
    ensures
        s.subset_of(closure(edges, s)),
{
    assert forall|a: NfaState| s.contains(a) implies closure(edges, s).contains(a) by {
        lemma_reach_refl(edges, a);
    }
}

/// A closure is closed under epsilon transitions.
pub proof fn lemma_closure_closed(edges: Set<NfaEdge>, s: Set<NfaState>)
    ensures
        is_closed(edges, closure(edges, s)),
{
    assert forall|e: NfaEdge|
        #[trigger] edges.contains(e) && e.label == NfaTrans::Epsilon && closure(edges, s).contains(
            e.from,
        ) implies closure(edges, s).contains(e.to) by {
        let a = choose|a: NfaState|
            s.contains(a) && #[trigger] reach(edges, a, Seq::empty(), e.from);
        lemma_reach_extend(edges, a, Seq::empty(), e);
    }
}

/// A closed set contains whatever its members reach on the empty word.
pub proof fn lemma_closed_keeps_path(
    edges: Set<NfaEdge>,
    t: Set<NfaState>,
    p: Seq<NfaEdge>,
    a: NfaState,
    b: NfaState,
)
    requires
        is_closed(edges, t),
        t.contains(a),
        is_path(edges, p, a, b),
        word(p) == Seq::<char>::empty(),
    ensures
        t.contains(b),
    decreases p.len(),
{
    if p.len() > 0 {
        let e = p.last();
        match e.label {
            NfaTrans::Epsilon => {
                lemma_closed_keeps_path(edges, t, p.drop_last(), a, e.from);
            },
            NfaTrans::Char(c) => {
                assert(word(p).len() > 0);
            },
        }
    }
}

/// The closure of a set lies within every closed set that contains the set: it
/// is the smallest such set.
pub proof fn lemma_closure_least(edges: Set<NfaEdge>, s: Set<NfaState>, t: Set<NfaState>)
    requires
        s.subset_of(t),
        is_closed(edges, t),
    ensures
        closure(edges, s).subset_of(t),
{
    assert forall|b: NfaState| closure(edges, s).contains(b) implies t.contains(b) by {
        let a = choose|a: NfaState| s.contains(a) && #[trigger] reach(edges, a, Seq::empty(), b);
        let p = choose|p: Seq<NfaEdge>|
            #[trigger] is_path(edges, p, a, b) && word(p) == Seq::<char>::empty();
        lemma_closed_keeps_path(edges, t, p, a, b);
    }
}

/// The closure of a larger set is larger.
pub proof fn lemma_closure_monotone(edges: Set<NfaEdge>, s: Set<NfaState>, t: Set<NfaState>)
    requires
        s.subset_of(t),
    ensures
        closure(edges, s).subset_of(closure(edges, t)),
{
    lemma_closure_extensive(edges, t);
    lemma_closure_closed(edges, t);
    lemma_closure_least(edges, s, closure(edges, t));
}

/// Closing a closure adds nothing.
pub proof fn lemma_closure_idempotent(edges: Set<NfaEdge>, s: Set<NfaState>)
    ensures
        closure(edges, closure(edges, s)) == closure(edges, s),
{
    let c = closure(edges, s);
    lemma_closure_closed(edges, s);
    lemma_closure_least(edges, c, c);
    lemma_closure_extensive(edges, c);
    assert(closure(edges, c) =~= c);
}

/// A closed set is its own closure.
pub proof fn lemma_closure_of_closed(edges: Set<NfaEdge>, t: Set<NfaState>)
    requires
        is_closed(edges, t),
    ensures
        closure(edges, t) == t,
{
    lemma_closure_least(edges, t, t);
    lemma_closure_extensive(edges, t);
    assert(closure(edges, t) =~= t);
}

/// Nothing is reachable from no state: every step of the empty set is empty.
pub proof fn lemma_step_of_empty(edges: Set<NfaEdge>, label: NfaTrans)
    ensures
        step(edges, Set::empty(), label) == Set::<NfaState>::empty(),
{
    let none = Set::<NfaState>::empty();
    assert(closure(edges, none) =~= none);
    match label {
        NfaTrans::Epsilon => {},
        NfaTrans::Char(c) => {
            assert(move_on(edges, none, label) =~= none);
        },
    }
}

/// Where no transition labelled `c` leaves the closure of `s`, the step of `s`
/// on `c` is empty.
pub proof fn lemma_step_without_transition(edges: Set<NfaEdge>, s: Set<NfaState>, c: char)
    requires
        forall|e: NfaEdge|
            #[trigger] edges.contains(e) && closure(edges, s).contains(e.from) ==> e.label
                != NfaTrans::Char(c),
    ensures
        step(edges, s, NfaTrans::Char(c)) == Set::<NfaState>::empty(),
{
    let none = Set::<NfaState>::empty();
    assert(move_on(edges, closure(edges, s), NfaTrans::Char(c)) =~= none);
    assert(closure(edges, none) =~= none);
}

/// Every frontier is closed under epsilon transitions.
pub proof fn lemma_frontier_closed(m: NfaModel, w: Seq<char>)
    ensures
        is_closed(m.edges, m.frontier(w)),
{
    if w.len() == 0 {
        lemma_closure_closed(m.edges, set![m.start]);
    } else {
        let f0 = m.frontier(w.drop_last());
        lemma_closure_closed(
            m.edges,
            move_on(m.edges, closure(m.edges, f0), NfaTrans::Char(w.last())),
        );
    }
}

/// The end of a walk from the start state lies in the frontier of its word.
pub proof fn lemma_path_in_frontier(m: NfaModel, p: Seq<NfaEdge>, b: NfaState)
    requires
        is_path(m.edges, p, m.start, b),
    ensures
        m.frontier(word(p)).contains(b),
    decreases p.len(),
{
    if p.len() == 0 {
        lemma_closure_extensive(m.edges, set![m.start]);
        assert(set![m.start].contains(m.start));
    } else {
        let e = p.last();
        let head = p.drop_last();
        lemma_path_in_frontier(m, head, e.from);
        let f0 = m.frontier(word(head));
        match e.label {
            NfaTrans::Epsilon => {
                lemma_frontier_closed(m, word(head));
            },
            NfaTrans::Char(c) => {
                let w = word(p);
                assert(w.drop_last() =~= word(head));
                assert(w.last() == c);
                lemma_closure_extensive(m.edges, f0);
                let mv = move_on(m.edges, closure(m.edges, f0), NfaTrans::Char(c));
                assert(m.edges.contains(e) && closure(m.edges, f0).contains(e.from));
                assert(mv.contains(e.to));
                lemma_closure_extensive(m.edges, mv);
            },
        }
    }
}

/// Each state of a frontier is the end of a walk from the start state that
/// spells the word read.
pub proof fn lemma_frontier_reached(m: NfaModel, w: Seq<char>, b: NfaState)
    requires
        m.frontier(w).contains(b),
    ensures
        reach(m.edges, m.start, w, b),
    decreases w.len(),
{
    let none = Seq::<char>::empty();
    if w.len() == 0 {
        let a = choose|a: NfaState|
            set![m.start].contains(a) && #[trigger] reach(m.edges, a, none, b);
        assert(a == m.start);
        assert(w =~= none);
    } else {
        let w0 = w.drop_last();
        let c = w.last();
        let f0 = m.frontier(w0);
        let cl = closure(m.edges, f0);
        let mv = move_on(m.edges, cl, NfaTrans::Char(c));
        let a = choose|a: NfaState| mv.contains(a) && #[trigger] reach(m.edges, a, none, b);
        let e = choose|e: NfaEdge|
            #[trigger] m.edges.contains(e) && cl.contains(e.from) && e.label == NfaTrans::Char(c)
                && e.to == a;
        let a0 = choose|a0: NfaState|
            f0.contains(a0) && #[trigger] reach(m.edges, a0, none, e.from);
        lemma_frontier_reached(m, w0, a0);
        lemma_reach_trans(m.edges, m.start, w0, a0, none, e.from);
        assert(w0 + none =~= w0);
        lemma_reach_extend(m.edges, m.start, w0, e);
        lemma_reach_trans(m.edges, m.start, w0.push(c), a, none, b);
        assert(w0.push(c) + none =~= w);
    }
}

/// The frontier after reading `w` holds exactly the states that the start
/// state reaches on `w`.
pub proof fn lemma_frontier_is_reach(m: NfaModel, w: Seq<char>)
    ensures
        forall|b: NfaState| m.frontier(w).contains(b) <==> reach(m.edges, m.start, w, b),
{
    assert forall|b: NfaState| m.frontier(w).contains(b) <==> reach(m.edges, m.start, w, b) by {
        if m.frontier(w).contains(b) {
            lemma_frontier_reached(m, w, b);
        }
        if reach(m.edges, m.start, w, b) {
            let p = choose|p: Seq<NfaEdge>|
                #[trigger] is_path(m.edges, p, m.start, b) && word(p) == w;
            lemma_path_in_frontier(m, p, b);
        }
    }
}

/// A word is accepted exactly when the frontier after reading it holds the
/// accept state.
pub proof fn lemma_accepts_by_frontier(m: NfaModel, w: Seq<char>)
    ensures
        m.accepts(w) <==> m.frontier(w).contains(m.accept),
{
    lemma_frontier_is_reach(m, w);
}

/// Once a frontier is empty it stays empty, whatever is read next.
pub proof fn lemma_frontier_stays_empty(m: NfaModel, w: Seq<char>, rest: Seq<char>)
    requires
        m.frontier(w) == Set::<NfaState>::empty(),
    ensures
        m.frontier(w + rest) == Set::<NfaState>::empty(),
    decreases rest.len(),
{
    if rest.len() == 0 {
        assert(w + rest =~= w);
    } else {
        let all = w + rest;
        lemma_frontier_stays_empty(m, w, rest.drop_last());
        assert(all.drop_last() =~= w + rest.drop_last());
        lemma_step_of_empty(m.edges, NfaTrans::Char(all.last()));
    }
}

} // verus!
