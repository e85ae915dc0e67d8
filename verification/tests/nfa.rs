use regex_engine::nfa::{Env, Nfa, NfaEdge, NfaState, NfaTrans};
use regex_engine::parser::Node;
use regex_engine::state_set::NfaStateSet;

fn eps(from: u32, to: u32) -> NfaEdge {
    NfaEdge { from: NfaState(from), label: NfaTrans::Epsilon, to: NfaState(to) }
}

fn on(from: u32, c: char, to: u32) -> NfaEdge {
    NfaEdge { from: NfaState(from), label: NfaTrans::Char(c), to: NfaState(to) }
}

fn sorted(edges: &[NfaEdge]) -> Vec<(u32, Option<char>, u32)> {
    let mut out: Vec<(u32, Option<char>, u32)> = edges
        .iter()
        .map(|e| {
            let label = match e.label {
                NfaTrans::Epsilon => None,
                NfaTrans::Char(c) => Some(c),
            };
            (e.from.as_u32(), label, e.to.as_u32())
        })
        .collect();
    out.sort();
    out
}

fn members(set: &NfaStateSet, limit: u32) -> Vec<u32> {
    (0..limit).filter(|id| set.contains(&NfaState(*id))).collect()
}

fn set_of(limit: u32, ids: &[u32]) -> NfaStateSet {
    let mut set = NfaStateSet::new(limit);
    for id in ids {
        set.insert(NfaState(*id));
    }
    set
}

#[test]
fn new_nfa() {
    // a(b|c)*

    let ast = Node::Concat(
        Box::new(Node::Char('a')),
        Box::new(Node::Repeat(Box::new(Node::Or(
            Box::new(Node::Char('b')),
            Box::new(Node::Char('c')),
        )))),
    );

    let nfa = Nfa::from(ast);

    let text = format!("{nfa:#?}");
    assert!(text.starts_with("Nfa"));
    assert_eq!(nfa.start().as_u32(), 1);
    assert_eq!(nfa.accept().as_u32(), 2);
    assert_eq!(nfa.state_limit(), 13);
    assert_eq!(nfa.states().len(), 14);
}

#[test]
fn a_character_is_one_transition() {
    let nfa = Nfa::from(Node::Char('x'));

    assert_eq!(nfa.start(), NfaState(1));
    assert_eq!(nfa.accept(), NfaState(2));
    assert_eq!(nfa.states().as_slice(), &[on(1, 'x', 2)]);
    assert_eq!(nfa.state_limit(), 3);
}

#[test]
fn a_concatenation_is_wired_in_a_chain() {
    let ast = Node::Concat(Box::new(Node::Char('a')), Box::new(Node::Char('b')));
    let nfa = Nfa::from(ast);

    assert_eq!(nfa.start(), NfaState(1));
    assert_eq!(nfa.accept(), NfaState(2));
    assert_eq!(
        sorted(nfa.states()),
        sorted(&[eps(1, 3), on(3, 'a', 4), eps(4, 5), on(5, 'b', 6), eps(6, 2)])
    );
}

#[test]
fn an_alternation_branches_and_rejoins() {
    let ast = Node::Or(Box::new(Node::Char('a')), Box::new(Node::Char('b')));
    let nfa = Nfa::from(ast);

    assert_eq!(nfa.start(), NfaState(1));
    assert_eq!(nfa.accept(), NfaState(2));
    assert_eq!(
        sorted(nfa.states()),
        sorted(&[eps(1, 3), eps(1, 5), on(3, 'a', 4), on(5, 'b', 6), eps(4, 2), eps(6, 2)])
    );
}

#[test]
fn a_repetition_loops_back_and_escapes() {
    let ast = Node::Repeat(Box::new(Node::Char('a')));
    let nfa = Nfa::from(ast);

    assert_eq!(nfa.start(), NfaState(1));
    assert_eq!(nfa.accept(), NfaState(2));
    assert_eq!(
        sorted(nfa.states()),
        sorted(&[eps(1, 2), eps(1, 3), on(3, 'a', 4), eps(4, 3), eps(4, 2)])
    );
}

#[test]
fn identifiers_are_handed_out_once_in_order() {
    let mut env = Env::new();

    assert_eq!(env.next(), NfaState(1));
    assert_eq!(env.next(), NfaState(2));
    assert_eq!(env.next().as_u32(), 3);

    let nfa = Nfa::new(Node::Char('q'), &mut env);
    assert_eq!(nfa.start(), NfaState(4));
    assert_eq!(nfa.accept(), NfaState(5));
    assert_eq!(env.next(), NfaState(6));
}

#[test]
fn the_accept_state_of_a_fragment_has_no_transition() {
    let ast = Node::Concat(
        Box::new(Node::Repeat(Box::new(Node::Char('a')))),
        Box::new(Node::Or(Box::new(Node::Char('b')), Box::new(Node::Char('c')))),
    );
    let nfa = Nfa::from(ast);

    assert!(nfa.states().iter().all(|e| e.from != nfa.accept()));
    assert!(nfa.states().iter().all(|e| e.to != nfa.start()));
}

#[test]
fn closure_follows_epsilon_transitions_to_the_end() {
    // (a*)* has chains of epsilon transitions that one hop does not exhaust.
    let ast = Node::Repeat(Box::new(Node::Repeat(Box::new(Node::Char('a')))));
    let nfa = Nfa::from(ast);
    let limit = nfa.state_limit();

    let one_hop = nfa.transit_epsilon(&set_of(limit, &[1]));
    assert_eq!(members(&one_hop, limit), vec![2, 3]);

    let closed = nfa.epsilon_next(set_of(limit, &[1]));
    assert_eq!(members(&closed, limit), vec![1, 2, 3, 4, 5]);
}

#[test]
fn closure_is_idempotent() {
    let ast = Node::Concat(
        Box::new(Node::Char('a')),
        Box::new(Node::Repeat(Box::new(Node::Or(
            Box::new(Node::Char('b')),
            Box::new(Node::Char('c')),
        )))),
    );
    let nfa = Nfa::from(ast);
    let limit = nfa.state_limit();

    for id in 1..limit {
        let once = nfa.epsilon_next(set_of(limit, &[id]));
        let twice = nfa.epsilon_next(once.clone());
        assert!(once.same_as(&twice));
        assert!(once.contains(&NfaState(id)));
    }
}

#[test]
fn closure_is_monotonic() {
    let ast = Node::Repeat(Box::new(Node::Or(
        Box::new(Node::Char('a')),
        Box::new(Node::Char('b')),
    )));
    let nfa = Nfa::from(ast);
    let limit = nfa.state_limit();

    let small = nfa.epsilon_next(set_of(limit, &[3]));
    let large = nfa.epsilon_next(set_of(limit, &[3, 6]));
    for id in members(&small, limit) {
        assert!(large.contains(&NfaState(id)));
    }
}

#[test]
fn a_step_without_a_transition_is_empty() {
    let ast = Node::Concat(Box::new(Node::Char('a')), Box::new(Node::Char('b')));
    let nfa = Nfa::from(ast);
    let limit = nfa.state_limit();

    let from_start = nfa.epsilon_next(set_of(limit, &[1]));
    assert!(nfa.states_next(&from_start, &NfaTrans::Char('z')).is_empty());
    assert!(nfa.states_next(&from_start, &NfaTrans::Char('b')).is_empty());
    assert!(nfa.states_next(&NfaStateSet::new(limit), &NfaTrans::Char('a')).is_empty());

    let after_a = nfa.states_next(&from_start, &NfaTrans::Char('a'));
    assert_eq!(members(&after_a, limit), vec![4, 5]);
}

#[test]
fn a_step_from_one_state_closes_before_and_after() {
    let ast = Node::Concat(Box::new(Node::Char('a')), Box::new(Node::Char('b')));
    let nfa = Nfa::from(ast);
    let limit = nfa.state_limit();

    let closed = nfa.next(&NfaState(1), &NfaTrans::Epsilon);
    assert_eq!(members(&closed, limit), vec![1, 3]);

    let stepped = nfa.next(&NfaState(1), &NfaTrans::Char('a'));
    assert_eq!(members(&stepped, limit), vec![4, 5]);

    let moved = nfa.transit(&closed, &NfaTrans::Char('a'));
    assert_eq!(members(&moved, limit), vec![4]);
}

#[test]
fn nfa_matches_whole_inputs_only() {
    let ast = Node::Concat(Box::new(Node::Char('a')), Box::new(Node::Char('b')));
    let nfa = Nfa::from(ast);

    assert!(nfa.matches("ab"));
    assert!(!nfa.matches(""));
    assert!(!nfa.matches("a"));
    assert!(!nfa.matches("abc"));
    assert!(!nfa.matches("cab"));
}

#[test]
fn sets_are_told_apart_by_their_members() {
    // {2, 6} and {3, 4} have the same product of identifiers, as have
    // {1, 12} and {12}.
    let a = set_of(13, &[2, 6]);
    let b = set_of(13, &[3, 4]);
    assert!(!a.same_as(&b));
    assert!(a.same_as(&set_of(13, &[6, 2])));

    let c = set_of(13, &[1, 12]);
    let d = set_of(13, &[12]);
    assert!(!c.same_as(&d));

    let mut union = a.clone();
    union.extend(&b);
    assert_eq!(members(&union, 13), vec![2, 3, 4, 6]);
    assert_eq!(members(&union.difference(&b), 13), vec![2, 6]);
    assert_eq!(union.limit(), 13);
    assert!(NfaStateSet::new(13).is_empty());
    assert!(!d.is_empty());
    assert!(!d.contains(&NfaState(40)));
}

#[test]
fn moves_list_each_character_once() {
    // a|a* has two transitions on `a` out of the closure of the start state.
    let ast = Node::Or(
        Box::new(Node::Char('a')),
        Box::new(Node::Repeat(Box::new(Node::Char('a')))),
    );
    let nfa = Nfa::from(ast);
    let limit = nfa.state_limit();

    let from_start = nfa.epsilon_next(set_of(limit, &[1]));
    let moves = nfa.transition_map_of(&from_start);
    assert_eq!(moves.len(), 1);
    assert_eq!(moves[0].label.0, 'a');
    let expected = nfa.states_next(&from_start, &NfaTrans::Char('a'));
    assert!(moves[0].target.same_as(&expected));
    assert!(moves[0].target.contains(&nfa.accept()));
}
