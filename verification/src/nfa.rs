//! Nondeterministic automata with epsilon transitions, and their construction
//! from a syntax tree by Thompson's rules.

use crate::language::lemma_fragment_language;
use crate::parser::Node;
use crate::walks::NfaModel;
use vstd::prelude::*;
use vstd::seq_lib::seq_to_set_distributes_over_add;

verus! {

/// A state of a nondeterministic automaton: an identifier and nothing else.
#[derive(Debug, Clone, Copy, PartialEq, Eq, Hash, Structural)]
pub struct NfaState(pub u32);

/// The label of a transition: nothing, or exactly one character.
#[derive(Debug, Clone, Copy, PartialEq, Eq, Hash, Structural)]
pub enum NfaTrans {
    /// Taken without consuming input.
    Epsilon,
    /// Taken by consuming this character.
    Char(char),
}

/// One transition of an automaton.
#[derive(Debug, Clone, Copy, PartialEq, Eq, Hash, Structural)]
pub struct NfaEdge {
    pub from: NfaState,
    pub label: NfaTrans,
    pub to: NfaState,
}

impl NfaState {
    /// The identifier as a number.
    pub fn as_u32(&self) -> (id: u32)
        ensures
            id == self.0,
    {
        self.0
    }
}

/// The state with identifier `id`.
pub open spec fn state_at(id: int) -> NfaState {
    NfaState(id as u32)
}

/// The epsilon transition between the states with these identifiers.
pub open spec fn eps_edge(from: int, to: int) -> NfaEdge {
    NfaEdge { from: state_at(from), label: NfaTrans::Epsilon, to: state_at(to) }
}

/// The transition on `c` between the states with these identifiers.
pub open spec fn char_edge(from: int, c: char, to: int) -> NfaEdge {
    NfaEdge { from: state_at(from), label: NfaTrans::Char(c), to: state_at(to) }
}

/// The transitions of the fragment that Thompson's rules build for `n` when the
/// identifiers up to `base` are taken. The fragment's start state is
/// `base + 1`, its accept state `base + 2`; the fragments of the operands
/// follow, the left one first, each on twice as many identifiers as it has
/// nodes.
pub open spec fn fragment_edges(n: Node, base: int) -> Set<NfaEdge>
    decreases n,
{
    let start = base + 1;
    let accept = base + 2;
    match n {
        Node::Char(c) => set![char_edge(start, c, accept)],
        Node::Concat(left, right) => {
            let lb = base + 2;
            let rb = lb + 2 * left.size();
            fragment_edges(*left, lb).union(fragment_edges(*right, rb)).insert(
                eps_edge(start, lb + 1),
            ).insert(eps_edge(lb + 2, rb + 1)).insert(eps_edge(rb + 2, accept))
        },
        Node::Or(left, right) => {
            let lb = base + 2;
            let rb = lb + 2 * left.size();
            fragment_edges(*left, lb).union(fragment_edges(*right, rb)).insert(
                eps_edge(start, lb + 1),
            ).insert(eps_edge(start, rb + 1)).insert(eps_edge(lb + 2, accept)).insert(
                eps_edge(rb + 2, accept),
            )
        },
        Node::Repeat(inner) => {
            let ib = base + 2;
            fragment_edges(*inner, ib).insert(eps_edge(start, accept)).insert(
                eps_edge(start, ib + 1),
            ).insert(eps_edge(ib + 2, ib + 1)).insert(eps_edge(ib + 2, accept))
        },
    }
}

/// The fragment that Thompson's rules build for `n` on the identifiers after
/// `base`.
pub open spec fn fragment(n: Node, base: int) -> NfaModel {
    NfaModel {
        start: state_at(base + 1),
        accept: state_at(base + 2),
        edges: fragment_edges(n, base),
    }
}

/// Whether every transition of `edges` joins states with identifiers above
/// `lo` and up to `hi`.
pub open spec fn within(edges: Set<NfaEdge>, lo: int, hi: int) -> bool {
    forall|e: NfaEdge| #[trigger]
        edges.contains(e) ==> lo < e.from.0 <= hi && lo < e.to.0 <= hi
}

/// A fragment uses only the identifiers it was given: two for each node.
pub proof fn lemma_fragment_within(n: Node, base: int)
    requires
        0 <= base,
        base + 2 * n.size() <= u32::MAX,
    ensures
        within(fragment_edges(n, base), base, base + 2 * n.size()),
    decreases n,
{
    match n {
        Node::Char(c) => {},
        Node::Concat(left, right) => {
            lemma_fragment_within(*left, base + 2);
            lemma_fragment_within(*right, base + 2 + 2 * left.size());
        },
        Node::Or(left, right) => {
            lemma_fragment_within(*left, base + 2);
            lemma_fragment_within(*right, base + 2 + 2 * left.size());
        },
        Node::Repeat(inner) => {
            lemma_fragment_within(*inner, base + 2);
        },
    }
}

/// No transition leaves the accept state of a fragment, and none leads to its
/// start state.
pub proof fn lemma_fragment_ends(n: Node, base: int)
    requires
        0 <= base,
        base + 2 * n.size() <= u32::MAX,
    ensures
        forall|e: NfaEdge| #[trigger]
            fragment_edges(n, base).contains(e) ==> e.from != fragment(n, base).accept && e.to
                != fragment(n, base).start,
{
    match n {
        Node::Char(c) => {},
        Node::Concat(left, right) => {
            lemma_fragment_within(*left, base + 2);
            lemma_fragment_within(*right, base + 2 + 2 * left.size());
        },
        Node::Or(left, right) => {
            lemma_fragment_within(*left, base + 2);
            lemma_fragment_within(*right, base + 2 + 2 * left.size());
        },
        Node::Repeat(inner) => {
            lemma_fragment_within(*inner, base + 2);
        },
    }
}

/// The transitions of a fragment, listed in any order, join states with
/// identifiers that the fragment was given.
pub proof fn lemma_edges_bounded(list: Seq<NfaEdge>, n: Node, base: int)
    requires
        0 <= base,
        base + 2 * n.size() <= u32::MAX,
        list.to_set() == fragment_edges(n, base),
    ensures
        forall|i: int|
            0 <= i < list.len() ==> (#[trigger] list[i]).from.0 <= base + 2 * n.size()
                && list[i].to.0 <= base + 2 * n.size(),
{
    lemma_fragment_within(n, base);
    assert forall|i: int| 0 <= i < list.len() implies (#[trigger] list[i]).from.0 <= base + 2
        * n.size() && list[i].to.0 <= base + 2 * n.size() by {
        assert(list.to_set().contains(list[i]));
    }
}

/// A nondeterministic automaton with one start state and one accept state.
#[derive(Debug)]
pub struct Nfa {
    start: NfaState,
    states: Vec<NfaEdge>,
    accept: NfaState,
    limit: u32,
}

impl View for Nfa {
    type V = NfaModel;

    open spec fn view(&self) -> NfaModel {
        NfaModel {
            start: self.start_state(),
            accept: self.accept_state(),
            edges: self.edge_list().to_set(),
        }
    }
}

impl Clone for Nfa {
    fn clone(&self) -> (copy: Nfa)
        ensures
            copy@ == self@,
            copy.edge_list() == self.edge_list(),
            copy.limit() == self.limit(),
    {
        proof {
            use_type_invariant(self);
        }
        let states = self.states.clone();
        assert(states@ =~= self.states@);
        Nfa { start: self.start, states, accept: self.accept, limit: self.limit }
    }
}

/// Hands out state identifiers, each once, in increasing order from 1.
pub struct Env {
    count: u32,
}

impl Env {
    /// How many identifiers have been handed out.
    pub closed spec fn count(&self) -> nat {
        self.count as nat
    }

    /// A source that has handed out no identifier yet.
    pub fn new() -> (env: Env)
        ensures
            env.count() == 0,
    {
        Env { count: 0 }
    }

    /// A state that was not handed out before.
    pub fn next(&mut self) -> (s: NfaState)
        requires
            old(self).count() < u32::MAX,
        ensures
            final(self).count() == old(self).count() + 1,
            s == state_at(final(self).count() as int),
    {
        self.count += 1;
        NfaState(self.count)
    }
}

impl Nfa {
    /// The start state.
    pub closed spec fn start_state(&self) -> NfaState {
        self.start
    }

    /// The accept state.
    pub closed spec fn accept_state(&self) -> NfaState {
        self.accept
    }

    /// The transitions, in the order in which they are stored.
    pub closed spec fn edge_list(&self) -> Seq<NfaEdge> {
        self.states@
    }

    /// A number above the identifier of every state.
    pub closed spec fn limit(&self) -> nat {
        self.limit as nat
    }

    /// Every state that the automaton mentions lies below its limit.
    #[verifier::type_invariant]
    spec fn bounded(&self) -> bool {
        &&& self.start.0 < self.limit
        &&& self.accept.0 < self.limit
        &&& forall|i: int|
            0 <= i < self.states@.len() ==> (#[trigger] self.states@[i]).from.0 < self.limit
                && self.states@[i].to.0 < self.limit
    }

    /// Whether this automaton is the fragment for `n` on the identifiers
    /// after `base`, built by a source that has now handed out `used`.
    pub open spec fn built(&self, n: Node, base: nat, used: nat) -> bool {
        &&& used == base + 2 * n.size()
        &&& self@.start == fragment(n, base as int).start
        &&& self@.accept == fragment(n, base as int).accept
        &&& self@.edges == fragment(n, base as int).edges
        &&& self.limit() == used + 1
    }

    /// Compiles a syntax tree into an automaton, with identifiers from 1.
    pub fn from(value: Node) -> (nfa: Nfa)
        requires
            2 * value.size() < u32::MAX,
        ensures
            nfa.built(value, 0, 2 * value.size()),
            forall|w: Seq<char>| nfa@.accepts(w) <==> value.accepts(w),
    {
        let mut env = Env::new();
        let nfa = Self::new(value, &mut env);
        proof {
            assert forall|w: Seq<char>| nfa@.accepts(w) <==> value.accepts(w) by {
                lemma_fragment_language(value, 0, w);
            }
        }
        nfa
    }

    /// Compiles a syntax tree into a fragment on fresh identifiers.
    pub fn new(n: Node, env: &mut Env) -> (nfa: Nfa)
        requires
            old(env).count() + 2 * n.size() < u32::MAX,
        ensures
            nfa.built(n, old(env).count(), final(env).count()),
        decreases n.size(), 1nat,
    {
        match n {
            Node::Char(c) => Self::new_char(c, env),
            Node::Concat(n1, n2) => Self::new_concat(*n1, *n2, env),
            Node::Or(n1, n2) => Self::new_or(*n1, *n2, env),
            Node::Repeat(inner) => Self::new_repeat(*inner, env),
        }
    }

    /// The fragment for one character: a start state, an accept state, and the
    /// transition on the character between them.
    pub fn new_char(c: char, env: &mut Env) -> (nfa: Nfa)
        requires
            old(env).count() + 2 < u32::MAX,
        ensures
            nfa.built(Node::Char(c), old(env).count(), final(env).count()),
    {
        let ghost base = env.count() as int;
        let start = env.next();
        let accept = env.next();
        let mut states: Vec<NfaEdge> = Vec::new();
        states.push(NfaEdge { from: start, label: NfaTrans::Char(c), to: accept });
        proof {
            let only = char_edge(base + 1, c, base + 2);
            assert(states@ =~= seq![only]);
            assert(states@[0] == only);
            assert(states@.to_set() =~= set![only]);
        }
        Nfa { start, states, accept, limit: env.count + 1 }
    }

    /// The fragment for one pattern followed by another: the new start state
    /// leads into the first, the accept state of the first into the second,
    /// and the accept state of the second to the new accept state.
    pub fn new_concat(n1: Node, n2: Node, env: &mut Env) -> (nfa: Nfa)
        requires
            old(env).count() + 2 * (1 + n1.size() + n2.size()) < u32::MAX,
        ensures
            nfa.built(
                Node::Concat(Box::new(n1), Box::new(n2)),
                old(env).count(),
                final(env).count(),
            ),
        decreases n1.size() + n2.size(), 2nat,
    {
        let ghost base = env.count() as int;
        let ghost whole = Node::Concat(Box::new(n1), Box::new(n2));
        let start = env.next();
        let accept = env.next();
        let mut states: Vec<NfaEdge> = Vec::new();

        let nfa1 = Self::new(n1, env);
        let nfa2 = Self::new(n2, env);

        states.push(NfaEdge { from: start, label: NfaTrans::Epsilon, to: nfa1.start });
        states.push(NfaEdge { from: nfa1.accept, label: NfaTrans::Epsilon, to: nfa2.start });
        states.push(NfaEdge { from: nfa2.accept, label: NfaTrans::Epsilon, to: accept });
        let ghost fresh = states@;

        let mut left = nfa1.states;
        let mut right = nfa2.states;
        states.append(&mut left);
        states.append(&mut right);
        proof {
            let lb = base + 2;
            let rb = lb + 2 * n1.size();
            seq_to_set_distributes_over_add(fresh + nfa1.edge_list(), nfa2.edge_list());
            seq_to_set_distributes_over_add(fresh, nfa1.edge_list());
            assert(fresh =~= seq![
                eps_edge(base + 1, lb + 1),
                eps_edge(lb + 2, rb + 1),
                eps_edge(rb + 2, base + 2),
            ]);
            assert(fresh.to_set() =~= set![
                eps_edge(base + 1, lb + 1),
                eps_edge(lb + 2, rb + 1),
                eps_edge(rb + 2, base + 2),
            ]);
            assert(states@.to_set() =~= fragment_edges(whole, base));
            lemma_edges_bounded(states@, whole, base);
        }
        Nfa { start, states, accept, limit: env.count + 1 }
    }

    /// The fragment for either of two patterns: the new start state leads
    /// into both, and the accept state of each to the new accept state.
    pub fn new_or(n1: Node, n2: Node, env: &mut Env) -> (nfa: Nfa)
        requires
            old(env).count() + 2 * (1 + n1.size() + n2.size()) < u32::MAX,
        ensures
            nfa.built(
                Node::Or(Box::new(n1), Box::new(n2)),
                old(env).count(),
                final(env).count(),
            ),
        decreases n1.size() + n2.size(), 2nat,
    {
        let ghost base = env.count() as int;
        let ghost whole = Node::Or(Box::new(n1), Box::new(n2));
        let start = env.next();
        let accept = env.next();
        let mut states: Vec<NfaEdge> = Vec::new();

        let nfa1 = Self::new(n1, env);
        let nfa2 = Self::new(n2, env);

        states.push(NfaEdge { from: start, label: NfaTrans::Epsilon, to: nfa1.start });
        states.push(NfaEdge { from: start, label: NfaTrans::Epsilon, to: nfa2.start });
        states.push(NfaEdge { from: nfa1.accept, label: NfaTrans::Epsilon, to: accept });
        states.push(NfaEdge { from: nfa2.accept, label: NfaTrans::Epsilon, to: accept });
        let ghost fresh = states@;

        let mut left = nfa1.states;
        let mut right = nfa2.states;
        states.append(&mut left);
        states.append(&mut right);
        proof {
            let lb = base + 2;
            let rb = lb + 2 * n1.size();
            seq_to_set_distributes_over_add(fresh + nfa1.edge_list(), nfa2.edge_list());
            seq_to_set_distributes_over_add(fresh, nfa1.edge_list());
            assert(fresh =~= seq![
                eps_edge(base + 1, lb + 1),
                eps_edge(base + 1, rb + 1),
                eps_edge(lb + 2, base + 2),
                eps_edge(rb + 2, base + 2),
            ]);
            assert(fresh.to_set() =~= set![
                eps_edge(base + 1, lb + 1),
                eps_edge(base + 1, rb + 1),
                eps_edge(lb + 2, base + 2),
                eps_edge(rb + 2, base + 2),
            ]);
            assert(states@.to_set() =~= fragment_edges(whole, base));
            lemma_edges_bounded(states@, whole, base);
        }
        Nfa { start, states, accept, limit: env.count + 1 }
    }

    /// The fragment for a pattern any number of times: the new start state
    /// leads to the new accept state and into the pattern, and the accept
    /// state of the pattern leads back to its start and to the new accept
    /// state.
    pub fn new_repeat(n: Node, env: &mut Env) -> (nfa: Nfa)
        requires
            old(env).count() + 2 * (1 + n.size()) < u32::MAX,
        ensures
            nfa.built(Node::Repeat(Box::new(n)), old(env).count(), final(env).count()),
        decreases n.size(), 2nat,
    {
        let ghost base = env.count() as int;
        let ghost whole = Node::Repeat(Box::new(n));
        let start = env.next();
        let accept = env.next();
        let mut states: Vec<NfaEdge> = Vec::new();

        let inner = Self::new(n, env);

        states.push(NfaEdge { from: start, label: NfaTrans::Epsilon, to: accept });
        states.push(NfaEdge { from: start, label: NfaTrans::Epsilon, to: inner.start });
        states.push(NfaEdge { from: inner.accept, label: NfaTrans::Epsilon, to: inner.start });
        states.push(NfaEdge { from: inner.accept, label: NfaTrans::Epsilon, to: accept });
        let ghost fresh = states@;

        let mut body = inner.states;
        states.append(&mut body);
        proof {
            let ib = base + 2;
            seq_to_set_distributes_over_add(fresh, inner.edge_list());
            assert(fresh =~= seq![
                eps_edge(base + 1, base + 2),
                eps_edge(base + 1, ib + 1),
                eps_edge(ib + 2, ib + 1),
                eps_edge(ib + 2, base + 2),
            ]);
            assert(fresh.to_set() =~= set![
                eps_edge(base + 1, base + 2),
                eps_edge(base + 1, ib + 1),
                eps_edge(ib + 2, ib + 1),
                eps_edge(ib + 2, base + 2),
            ]);
            assert(states@.to_set() =~= fragment_edges(whole, base));
            lemma_edges_bounded(states@, whole, base);
        }
        Nfa { start, states, accept, limit: env.count + 1 }
    }

    /// The start state.
    pub fn start(&self) -> (s: NfaState)
        ensures
            s == self@.start,
            s.0 < self.limit(),
    {
        proof {
            use_type_invariant(self);
        }
        self.start
    }

    /// The transitions of the automaton.
    pub fn states(&self) -> (edges: &Vec<NfaEdge>)
        ensures
            edges@ == self.edge_list(),
            forall|i: int|
                0 <= i < edges@.len() ==> (#[trigger] edges@[i]).from.0 < self.limit()
                    && edges@[i].to.0 < self.limit(),
    {
        proof {
            use_type_invariant(self);
        }
        &self.states
    }

    /// The accept state.
    pub fn accept(&self) -> (s: NfaState)
        ensures
            s == self@.accept,
            s.0 < self.limit(),
    {
        proof {
            use_type_invariant(self);
        }
        self.accept
    }

    /// A number above the identifier of every state.
    pub fn state_limit(&self) -> (n: u32)
        ensures
            n == self.limit(),
    {
        self.limit
    }
}

} // verus!
