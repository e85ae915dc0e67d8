//! Matching by simulation: the closure and step operations on an automaton,
//! and a compiled pattern that decides whether it matches a whole input.

use crate::language::lemma_fragment_language;
use crate::lexer::{token_of, tokenize};
use crate::nfa::{fragment, Nfa, NfaEdge, NfaState, NfaTrans};
use crate::parser::{parse_spec, Node, ParseError, ParseFailure};
use crate::state_set::{lemma_size_bound, NfaStateSet};
use crate::walks::{closure, is_closed, move_on, step, NfaModel};
use crate::walks::{
    lemma_accepts_by_frontier, lemma_closure_closed, lemma_closure_extensive, lemma_closure_least,
    lemma_frontier_stays_empty,
};
use vstd::prelude::*;

verus! {

/// Whether the transition `e` leaves a state of `s` under `label` and ends
/// in `b`.
pub open spec fn leads(e: NfaEdge, s: Set<NfaState>, label: NfaTrans, b: NfaState) -> bool {
    s.contains(e.from) && e.label == label && e.to == b
}

/// Whether two labels are the same.
fn same_label(a: &NfaTrans, b: &NfaTrans) -> (same: bool)
    ensures
        same == (*a == *b),
{
    match (a, b) {
        (NfaTrans::Epsilon, NfaTrans::Epsilon) => true,
        (NfaTrans::Char(x), NfaTrans::Char(y)) => *x == *y,
        _ => false,
    }
}

impl Nfa {
    /// Whether the automaton accepts the whole of the input. The states that
    /// the automaton may be in are followed from the closure of the start
    /// state, one step for each character; the input is rejected as soon as
    /// no state is left, and accepted if the accept state is among those left
    /// at the end.
    pub fn matches(&self, pattern: &str) -> (b: bool)
        ensures
            b == self@.accepts(pattern@),
            b == self@.frontier(pattern@).contains(self@.accept),
    {
        let ghost m = self@;
        let mut states = NfaStateSet::new(self.state_limit());
        states.insert(self.start());
        assert(states@ =~= set![m.start]);
        states = self.epsilon_next(states);
        proof {
            lemma_accepts_by_frontier(m, pattern@);
        }
        for c in it: pattern.chars()
            invariant
                it.seq() == pattern@,
                m == self@,
                states.wf(),
                states.capacity() == self.limit(),
                states@ == m.frontier(it.seq().take(it.index() as int)),
                m.accepts(pattern@) <==> m.frontier(pattern@).contains(m.accept),
        {
            let ghost read = it.seq().take(it.index() as int);
            let ghost now = it.seq().take(it.index() + 1);
            states = self.states_next(&states, &NfaTrans::Char(c));
            proof {
                assert(now.drop_last() =~= read);
                assert(now.last() == c);
                assert(states@ == m.frontier(now));
            }
            if states.is_empty() {
                proof {
                    let rest = it.seq().skip(it.index() + 1);
                    lemma_frontier_stays_empty(m, now, rest);
                    assert(now + rest =~= pattern@);
                }
                return false;
            }
        }
        proof {
            assert(pattern@.take(pattern@.len() as int) =~= pattern@);
        }
        states.contains(&self.accept())
    }

    /// The states that one step of the automaton leads to from a set of
    /// states: their closure under epsilon, and under a character the closure
    /// of what the character leads to from there.
    pub fn states_next(&self, states: &NfaStateSet, trans: &NfaTrans) -> (nexts: NfaStateSet)
        requires
            states.wf(),
            states.capacity() == self.limit(),
        ensures
            nexts.wf(),
            nexts.capacity() == self.limit(),
            nexts@ == step(self@.edges, states@, *trans),
    {
        let e_starts = self.epsilon_next(states.clone());
        match trans {
            NfaTrans::Epsilon => e_starts,
            NfaTrans::Char(_) => {
                let moved = self.transit(&e_starts, trans);
                self.epsilon_next(moved)
            },
        }
    }

    /// The states that one step of the automaton leads to from one state.
    pub fn next(&self, state: &NfaState, trans: &NfaTrans) -> (nexts: NfaStateSet)
        requires
            state.0 < self.limit(),
        ensures
            nexts.wf(),
            nexts.capacity() == self.limit(),
            nexts@ == step(self@.edges, set![*state], *trans),
    {
        let mut starts = NfaStateSet::new(self.state_limit());
        starts.insert(*state);
        assert(starts@ =~= set![*state]);
        self.states_next(&starts, trans)
    }

    /// The closure of a set of states under epsilon transitions: the states
    /// themselves and all that epsilon transitions lead to from them.
    pub fn epsilon_next(&self, states: NfaStateSet) -> (nexts: NfaStateSet)
        requires
            states.wf(),
            states.capacity() == self.limit(),
        ensures
            nexts.wf(),
            nexts.capacity() == self.limit(),
            nexts@ == closure(self@.edges, states@),
    {
        let ghost edges = self@.edges;
        let ghost initial = states@;
        let mut nexts = states.clone();
        let mut new = states;
        proof {
            lemma_closure_extensive(edges, initial);
            lemma_size_bound(nexts);
        }
        while !new.is_empty()
            invariant
                edges == self@.edges,
                nexts.wf(),
                new.wf(),
                nexts.capacity() == self.limit(),
                new.capacity() == self.limit(),
                nexts.size() <= self.limit(),
                initial.subset_of(nexts@),
                nexts@.subset_of(closure(edges, initial)),
                new@.subset_of(nexts@),
                forall|e: NfaEdge|
                    #[trigger] edges.contains(e) && e.label == NfaTrans::Epsilon && nexts@.contains(
                        e.from,
                    ) && !new@.contains(e.from) ==> nexts@.contains(e.to),
            decreases
                    self.limit() - nexts.size(),
                    (if new@ == Set::<NfaState>::empty() {
                        0nat
                    } else {
                        1nat
                    }),
        {
            let ghost before = nexts@;
            let ghost work = new@;
            let next_new = self.transit_epsilon(&new);
            new = next_new.difference(&nexts);
            nexts.extend(&next_new);
            proof {
                lemma_closure_closed(edges, initial);
                assert forall|b: NfaState| next_new@.contains(b) implies closure(
                    edges,
                    initial,
                ).contains(b) by {
                    let e = choose|e: NfaEdge| #[trigger]
                        edges.contains(e) && leads(e, work, NfaTrans::Epsilon, b);
                    assert(closure(edges, initial).contains(e.from));
                }
                assert forall|e: NfaEdge|
                    #[trigger] edges.contains(e) && e.label == NfaTrans::Epsilon && nexts@.contains(
                        e.from,
                    ) && !new@.contains(e.from) implies nexts@.contains(e.to) by {
                    if work.contains(e.from) {
                        assert(leads(e, work, NfaTrans::Epsilon, e.to));
                        assert(next_new@.contains(e.to));
                    }
                }
                if new@ != Set::<NfaState>::empty() {
                    assert(!(new@ =~= Set::<NfaState>::empty()));
                    let s = choose|s: NfaState| new@.contains(s);
                    assert(nexts@.contains(s) && !before.contains(s));
                } else {
                    assert forall|b: NfaState| next_new@.contains(b) implies before.contains(b) by {
                        assert(!new@.contains(b));
                    }
                    assert(nexts@ =~= before);
                }
            }
        }
        proof {
            assert(is_closed(edges, nexts@));
            lemma_closure_least(edges, initial, nexts@);
            assert(nexts@ =~= closure(edges, initial));
        }
        nexts
    }

    /// The states that a single epsilon transition leads to from a set of
    /// states.
    pub fn transit_epsilon(&self, states: &NfaStateSet) -> (nexts: NfaStateSet)
        ensures
            nexts.wf(),
            nexts.capacity() == self.limit(),
            nexts@ == move_on(self@.edges, states@, NfaTrans::Epsilon),
    {
        self.transit(states, &NfaTrans::Epsilon)
    }

    /// The states that a single transition under `trans` leads to from a set
    /// of states.
    pub fn transit(&self, states: &NfaStateSet, trans: &NfaTrans) -> (nexts: NfaStateSet)
        ensures
            nexts.wf(),
            nexts.capacity() == self.limit(),
            nexts@ == move_on(self@.edges, states@, *trans),
    {
        let edges = self.states();
        let mut nexts = NfaStateSet::new(self.state_limit());
        let mut i: usize = 0;
        while i < edges.len()
            invariant
                i <= edges@.len(),
                edges@ == self.edge_list(),
                nexts.wf(),
                nexts.capacity() == self.limit(),
                forall|k: int|
                    0 <= k < edges@.len() ==> (#[trigger] edges@[k]).from.0 < self.limit()
                        && edges@[k].to.0 < self.limit(),
                forall|b: NfaState|
                    nexts@.contains(b) <==> exists|k: int|
                        0 <= k < i && #[trigger] leads(edges@[k], states@, *trans, b),
            decreases edges@.len() - i,
        {
            let e = edges[i];
            let ghost before = nexts@;
            if same_label(&e.label, trans) && states.contains(&e.from) {
                nexts.insert(e.to);
            }
            proof {
                assert forall|b: NfaState|
                    nexts@.contains(b) <==> exists|k: int|
                        0 <= k < i + 1 && #[trigger] leads(edges@[k], states@, *trans, b) by {
                    if nexts@.contains(b) {
                        if before.contains(b) {
                            let k = choose|k: int|
                                0 <= k < i && #[trigger] leads(edges@[k], states@, *trans, b);
                            assert(0 <= k < i + 1 && leads(edges@[k], states@, *trans, b));
                        } else {
                            assert(leads(edges@[i as int], states@, *trans, b));
                        }
                    }
                    if exists|k: int|
                        0 <= k < i + 1 && #[trigger] leads(edges@[k], states@, *trans, b) {
                        let k = choose|k: int|
                            0 <= k < i + 1 && #[trigger] leads(edges@[k], states@, *trans, b);
                        if k < i {
                            assert(before.contains(b));
                        }
                    }
                }
            }
            i += 1;
        }
        proof {
            let all = self@.edges;
            assert forall|b: NfaState| nexts@.contains(b) <==> move_on(all, states@, *trans).contains(
                b,
            ) by {
                if nexts@.contains(b) {
                    let k = choose|k: int|
                        0 <= k < i && #[trigger] leads(edges@[k], states@, *trans, b);
                    assert(all.contains(edges@[k]));
                }
                if move_on(all, states@, *trans).contains(b) {
                    let e = choose|e: NfaEdge|
                        #[trigger] all.contains(e) && states@.contains(e.from) && e.label == *trans
                            && e.to == b;
                    let k = choose|k: int| 0 <= k < edges@.len() && edges@[k] == e;
                    assert(leads(edges@[k], states@, *trans, b));
                }
            }
            assert(nexts@ =~= move_on(all, states@, *trans));
        }
        nexts
    }
}

/// A compiled pattern.
#[derive(Debug, Clone)]
pub struct Regex {
    nfa: Nfa,
}

/// Why a pattern could not be compiled.
#[derive(Debug, Clone, Copy, PartialEq, Eq, Structural)]
pub enum RegexParseError {
    /// The pattern ended where more was needed.
    UnexpectedEOF,
    /// A character of the pattern stands where it cannot.
    UnexpectedToken,
}

/// The error that is reported for a failure of the parser.
pub open spec fn regex_error(f: ParseFailure) -> RegexParseError {
    match f {
        ParseFailure::UnexpectedEOF => RegexParseError::UnexpectedEOF,
        ParseFailure::UnexpectedToken(_, _) => RegexParseError::UnexpectedToken,
        ParseFailure::ExpectedEOF(_) => RegexParseError::UnexpectedToken,
    }
}

/// The syntax tree of a pattern, or why it has none.
pub open spec fn pattern_tree(re: Seq<char>) -> Result<Node, ParseFailure> {
    parse_spec(re.map_values(|c: char| token_of(c)))
}

impl RegexParseError {
    /// The error that is reported for a failure of the parser.
    pub fn from(value: ParseError) -> (e: RegexParseError)
        ensures
            e == regex_error(value@),
    {
        match value {
            ParseError::UnexpectedEOF => RegexParseError::UnexpectedEOF,
            ParseError::UnexpectedToken(_, _) => RegexParseError::UnexpectedToken,
            ParseError::ExpectedEOF(_) => RegexParseError::UnexpectedToken,
        }
    }
}

impl View for Regex {
    type V = NfaModel;

    closed spec fn view(&self) -> NfaModel {
        self.nfa@
    }
}

impl Regex {
    /// Compiles a pattern. The pattern must be short enough for its states to
    /// be numbered: four states at most are needed for each character.
    pub fn new(re: &str) -> (r: Result<Regex, RegexParseError>)
        requires
            4 * re@.len() <= u32::MAX,
        ensures
            match r {
                Ok(regex) => pattern_tree(re@) matches Ok(ast) && regex@ == fragment(ast, 0)
                    && forall|w: Seq<char>| regex@.accepts(w) <==> ast.accepts(w),
                Err(e) => pattern_tree(re@) matches Err(f) && e == regex_error(f),
            },
    {
        let tokens = tokenize(re);
        match Node::parse(tokens.as_slice()) {
            Err(e) => Err(RegexParseError::from(e)),
            Ok(ast) => {
                let ghost tree = ast;
                let nfa = Nfa::from(ast);
                proof {
                    assert forall|w: Seq<char>| nfa@.accepts(w) <==> tree.accepts(w) by {
                        lemma_fragment_language(tree, 0, w);
                    }
                }
                Ok(Regex { nfa })
            },
        }
    }

    /// The compiled pattern that matches with this automaton.
    pub fn from(nfa: Nfa) -> (regex: Regex)
        ensures
            regex@ == nfa@,
    {
        Regex { nfa }
    }

    /// Whether the pattern matches the whole of the input.
    pub fn matches(&self, pattern: &str) -> (b: bool)
        ensures
            b == self@.accepts(pattern@),
    {
        self.nfa.matches(pattern)
    }
}

} // verus!
