use regex_engine::lexer::{tokenize, TokenKind};

#[test]
fn tokenize_raw_chars() {
    let raw = "a(b|c)*";

    let expected = vec![
        TokenKind::Char('a'),
        TokenKind::LPare,
        TokenKind::Char('b'),
        TokenKind::Bar,
        TokenKind::Char('c'),
        TokenKind::RPare,
        TokenKind::Star,
    ];

    let result = tokenize(raw);

    assert_eq!(result, expected);
}

#[test]
fn every_operator_has_its_token() {
    assert_eq!(TokenKind::from('('), TokenKind::LPare);
    assert_eq!(TokenKind::from(')'), TokenKind::RPare);
    assert_eq!(TokenKind::from('|'), TokenKind::Bar);
    assert_eq!(TokenKind::from('*'), TokenKind::Star);
    assert_eq!(TokenKind::from('+'), TokenKind::Char('+'));
    assert_eq!(TokenKind::from('é'), TokenKind::Char('é'));
}

#[test]
fn tokenize_is_one_token_per_character() {
    assert_eq!(tokenize(""), vec![]);
    assert_eq!(tokenize("é*"), vec![TokenKind::Char('é'), TokenKind::Star]);
    assert_eq!(tokenize("a b").len(), 3);
}

#[test]
fn tokens_read_as_in_messages() {
    assert_eq!(TokenKind::Char('x').to_string(), "char `x`");
    assert_eq!(TokenKind::Char('`').to_string(), "char ```");
    assert_eq!(TokenKind::LPare.to_string(), "`(`");
    assert_eq!(TokenKind::RPare.to_string(), "`)`");
    assert_eq!(TokenKind::Bar.to_string(), "`|`");
    assert_eq!(TokenKind::Star.to_string(), "`*`");
}
