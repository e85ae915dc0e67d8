//! Tokens of the pattern language.

use vstd::prelude::*;
use vstd::string::*;

verus! {

/// One token of a pattern: a literal character or one of the four operators.
#[derive(Debug, Clone, Copy, PartialEq, Eq, Structural)]
pub enum TokenKind {
    /// A single literal character.
    Char(char),
    /// `(`
    LPare,
    /// `)`
    RPare,
    /// `|`
    Bar,
    /// `*`
    Star,
}

/// The token that a single character of a pattern stands for.
pub open spec fn token_of(c: char) -> TokenKind {
    if c == '(' {
        TokenKind::LPare
    } else if c == ')' {
        TokenKind::RPare
    } else if c == '|' {
        TokenKind::Bar
    } else if c == '*' {
        TokenKind::Star
    } else {
        TokenKind::Char(c)
    }
}

/// How a token reads in a message.
pub open spec fn token_text(t: TokenKind) -> Seq<char> {
    match t {
        TokenKind::Char(c) => "char `"@ + seq![c] + "`"@,
        TokenKind::LPare => "`(`"@,
        TokenKind::RPare => "`)`"@,
        TokenKind::Bar => "`|`"@,
        TokenKind::Star => "`*`"@,
    }
}

/// Calls `char::to_string` of the standard library. The contract claims that
/// the string holds the character and nothing else.
#[verifier::external_body]
fn char_to_string(c: char) -> (s: String)
    ensures
        s@ == seq![c],
{
    c.to_string()
}

impl TokenKind {
    /// How the token reads in a message.
    pub fn to_string(&self) -> (text: String)
        ensures
            text@ == token_text(*self),
    {
        match self {
            TokenKind::Char(c) => {
                let mut text = "char `".to_owned();
                let letter = char_to_string(*c);
                text.append(letter.as_str());
                text.append("`");
                text
            },
            TokenKind::LPare => "`(`".to_owned(),
            TokenKind::RPare => "`)`".to_owned(),
            TokenKind::Bar => "`|`".to_owned(),
            TokenKind::Star => "`*`".to_owned(),
        }
    }

    /// Classifies one character of a pattern.
    pub fn from(value: char) -> (t: TokenKind)
        ensures
            t == token_of(value),
    {
        match value {
            '(' => TokenKind::LPare,
            ')' => TokenKind::RPare,
            '|' => TokenKind::Bar,
            '*' => TokenKind::Star,
            _ => TokenKind::Char(value),
        }
    }
}

/// Splits a pattern into tokens, one per character.
pub fn tokenize(src: &str) -> (tokens: Vec<TokenKind>)
    ensures
        tokens@ == src@.map_values(|c: char| token_of(c)),
{
    let mut tokens: Vec<TokenKind> = Vec::new();
    for c in it: src.chars()
        invariant
            tokens@ == it.seq().take(it.index() as int).map_values(|c: char| token_of(c)),
            it.seq() == src@,
    {
        tokens.push(TokenKind::from(c));
    }
    tokens
}

} // verus!
