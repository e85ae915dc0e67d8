use regex_engine::lexer::TokenKind;
use regex_engine::parser::Node;

#[test]
fn parse_tokens() {
    let tokens = vec![
        TokenKind::Char('a'),
        TokenKind::LPare,
        TokenKind::Char('b'),
        TokenKind::Bar,
        TokenKind::Char('c'),
        TokenKind::RPare,
        TokenKind::Star,
    ];

    let expected = Node::Concat(
        Box::new(Node::Char('a')),
        Box::new(Node::Repeat(Box::new(Node::Or(
            Box::new(Node::Char('b')),
            Box::new(Node::Char('c')),
        )))),
    );

    let result = Node::parse(&tokens);

    assert_eq!(result, Ok(expected));
}

use regex_engine::lexer::tokenize;
use regex_engine::parser::ParseError;

fn ch(c: char) -> Box<Node> {
    Box::new(Node::Char(c))
}

#[test]
fn sequences_fold_to_the_left() {
    let result = Node::parse(&tokenize("abc"));
    let expected = Node::Concat(Box::new(Node::Concat(ch('a'), ch('b'))), ch('c'));
    assert_eq!(result, Ok(expected));
}

#[test]
fn a_bar_binds_tighter_than_a_sequence() {
    let result = Node::parse(&tokenize("ab|c"));
    let expected = Node::Concat(ch('a'), Box::new(Node::Or(ch('b'), ch('c'))));
    assert_eq!(result, Ok(expected));
}

#[test]
fn a_star_binds_tighter_than_a_bar() {
    let result = Node::parse(&tokenize("(ab)*|c"));
    let expected = Node::Or(
        Box::new(Node::Repeat(Box::new(Node::Concat(ch('a'), ch('b'))))),
        ch('c'),
    );
    assert_eq!(result, Ok(expected));
}

#[test]
fn the_end_where_more_is_needed() {
    assert_eq!(Node::parse(&[]), Err(ParseError::UnexpectedEOF));
    assert_eq!(Node::parse(&tokenize("a|")), Err(ParseError::UnexpectedEOF));
    assert_eq!(Node::parse(&tokenize("(a")), Err(ParseError::UnexpectedEOF));
    assert_eq!(Node::parse(&tokenize("(")), Err(ParseError::UnexpectedEOF));
}

#[test]
fn a_token_where_an_operand_must_begin() {
    let wanted = vec![TokenKind::Char('c'), TokenKind::LPare];
    assert_eq!(
        Node::parse(&tokenize(")")),
        Err(ParseError::UnexpectedToken(TokenKind::RPare, wanted.clone()))
    );
    assert_eq!(
        Node::parse(&tokenize("*a")),
        Err(ParseError::UnexpectedToken(TokenKind::Star, wanted.clone()))
    );
    assert_eq!(
        Node::parse(&tokenize("a||b")),
        Err(ParseError::UnexpectedToken(TokenKind::Bar, wanted))
    );
}

#[test]
fn a_token_where_a_parenthesis_must_close() {
    assert_eq!(
        Node::parse(&tokenize("(a|b|c)")),
        Err(ParseError::UnexpectedToken(TokenKind::Bar, vec![TokenKind::RPare]))
    );
    assert_eq!(
        Node::parse(&tokenize("(a**)")),
        Err(ParseError::UnexpectedToken(TokenKind::Star, vec![TokenKind::RPare]))
    );
}

#[test]
fn a_token_after_a_complete_pattern() {
    assert_eq!(Node::parse(&tokenize("a)")), Err(ParseError::ExpectedEOF(TokenKind::RPare)));
    assert_eq!(Node::parse(&tokenize("a**")), Err(ParseError::ExpectedEOF(TokenKind::Star)));
    assert_eq!(Node::parse(&tokenize("a|b|c")), Err(ParseError::ExpectedEOF(TokenKind::Bar)));
}

#[test]
fn parse_sequence_stops_at_what_is_no_operand() {
    let tokens = tokenize("(ab)c");
    let result = Node::parse_sequence(&tokens, 1);
    assert_eq!(result, Ok((Node::Concat(ch('a'), ch('b')), 3)));
}
