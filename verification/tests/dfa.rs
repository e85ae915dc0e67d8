use regex_engine::dfa::Dfa;
use regex_engine::nfa::Nfa;
use regex_engine::parser::Node;
use regex_engine::regex::Regex;

fn a_then_b_or_c_repeated() -> Node {
    // a(b|c)*
    Node::Concat(
        Box::new(Node::Char('a')),
        Box::new(Node::Repeat(Box::new(Node::Or(
            Box::new(Node::Char('b')),
            Box::new(Node::Char('c')),
        )))),
    )
}

#[test]
fn dfa_from_nfa() {
    // a(b|c)*

    let ast = Node::Concat(
        Box::new(Node::Char('a')),
        Box::new(Node::Repeat(Box::new(Node::Or(
            Box::new(Node::Char('b')),
            Box::new(Node::Char('c')),
        )))),
    );

    let nfa = Nfa::from(ast);

    let dfa = Dfa::from(nfa);

    let text = format!("{dfa:#?}");
    assert!(text.starts_with("Dfa"));
    assert!(dfa.matches("a"));
    assert!(dfa.matches("acbbc"));
    assert!(!dfa.matches(""));
    assert!(!dfa.matches("bcb"));
}

#[test]
fn dfa_regex_works() {
    // a(b|c)*

    let ast = Node::Concat(
        Box::new(Node::Char('a')),
        Box::new(Node::Repeat(Box::new(Node::Or(
            Box::new(Node::Char('b')),
            Box::new(Node::Char('c')),
        )))),
    );

    let nfa = Nfa::from(ast);

    let regex = Regex::from(nfa);

    assert!(regex.matches("a"));
    assert!(regex.matches("ab"));
    assert!(regex.matches("ac"));
    assert!(!regex.matches("b"));
    assert!(!regex.matches("bcb"));
    assert!(regex.matches("acbbc"));
}

#[test]
fn dfa_matches_the_same_scenarios() {
    let dfa = Dfa::from(Nfa::from(a_then_b_or_c_repeated()));

    assert!(dfa.matches("a"));
    assert!(dfa.matches("ab"));
    assert!(dfa.matches("ac"));
    assert!(!dfa.matches("b"));
    assert!(!dfa.matches("bcb"));
    assert!(dfa.matches("acbbc"));
}

#[test]
fn dfa_accepts_the_empty_input_of_a_repetition() {
    let star = Node::Repeat(Box::new(Node::Char('a')));
    let dfa = Dfa::from(Nfa::from(star));

    assert!(dfa.matches(""));
    assert!(dfa.matches("a"));
    assert!(dfa.matches("aaaa"));
    assert!(!dfa.matches("b"));
    assert!(!dfa.matches("ab"));
}

#[test]
fn dfa_rejects_where_a_transition_is_missing() {
    let dfa = Dfa::from(Nfa::from(Node::Char('a')));

    assert!(dfa.matches("a"));
    assert!(!dfa.matches(""));
    assert!(!dfa.matches("z"));
    assert!(!dfa.matches("aa"));
    assert!(!dfa.matches("az"));
}

#[test]
fn dfa_answers_do_not_depend_on_earlier_calls() {
    let dfa = Dfa::from(Nfa::from(a_then_b_or_c_repeated()));

    let first = dfa.matches("abc");
    assert!(!dfa.matches("x"));
    assert!(dfa.matches("a"));
    let second = dfa.matches("abc");

    assert_eq!(first, second);
    assert!(first);
}

#[test]
fn both_engines_agree() {
    let patterns = ["a(b|c)*", "a*b*", "(ab)*|c", "a(bc)*d", "(a|b)*abb", "((a*)*)*", "a|b"];
    let inputs = [
        "", "a", "b", "c", "d", "ab", "ba", "abb", "aabb", "babb", "abab", "ababab", "abc", "cab",
        "cc", "ad", "abcd", "abcbcd", "abcbd", "aaabbb", "abba", "acbbc", "bcb", "xyz",
    ];

    for pattern in patterns {
        let regex = Regex::new(pattern).unwrap();
        let tokens = regex_engine::lexer::tokenize(pattern);
        let ast = Node::parse(&tokens).unwrap();
        let nfa = Nfa::from(ast);
        let dfa = Dfa::from(nfa.clone());
        for input in inputs {
            assert_eq!(nfa.matches(input), dfa.matches(input), "{pattern} on {input}");
            assert_eq!(regex.matches(input), dfa.matches(input), "{pattern} on {input}");
        }
    }
}
