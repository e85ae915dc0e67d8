//! Syntax trees of patterns and the recursive-descent parser that builds them.
//!
//! The grammar, from the loosest binding to the tightest:
//!
//! ```text
//! sequence := binary binary*
//! binary   := unary ( '|' unary )?
//! unary    := atomic '*'?
//! atomic   := char | '(' sequence ')'
//! ```

use crate::lexer::TokenKind;
use vstd::prelude::*;

verus! {

/// A pattern as a tree.
#[derive(Debug, PartialEq, Eq)]
pub enum Node {
    /// Exactly this character.
    Char(char),
    /// The first pattern followed by the second.
    Concat(Box<Node>, Box<Node>),
    /// Either of the two patterns.
    Or(Box<Node>, Box<Node>),
    /// The pattern any number of times, including none.
    Repeat(Box<Node>),
}

impl Clone for Node {
    fn clone(&self) -> (copy: Node)
        ensures
            copy == *self,
        decreases self,
    {
        match self {
            Node::Char(c) => Node::Char(*c),
            Node::Concat(left, right) => {
                let l: &Node = left;
                let r: &Node = right;
                Node::Concat(Box::new(l.clone()), Box::new(r.clone()))
            },
            Node::Or(left, right) => {
                let l: &Node = left;
                let r: &Node = right;
                Node::Or(Box::new(l.clone()), Box::new(r.clone()))
            },
            Node::Repeat(inner) => {
                let i: &Node = inner;
                Node::Repeat(Box::new(i.clone()))
            },
        }
    }
}

/// Why a token sequence is not a pattern.
#[derive(Debug, Clone, PartialEq, Eq)]
pub enum ParseError {
    /// The tokens ended where more were needed.
    UnexpectedEOF,
    /// The token found, and the tokens that could have stood in its place.
    UnexpectedToken(TokenKind, Vec<TokenKind>),
    /// A complete pattern was read and this token follows it.
    ExpectedEOF(TokenKind),
}

/// The mathematical value of a [`ParseError`].
pub enum ParseFailure {
    UnexpectedEOF,
    UnexpectedToken(TokenKind, Seq<TokenKind>),
    ExpectedEOF(TokenKind),
}

impl View for ParseError {
    type V = ParseFailure;

    open spec fn view(&self) -> ParseFailure {
        match self {
            ParseError::UnexpectedEOF => ParseFailure::UnexpectedEOF,
            ParseError::UnexpectedToken(found, wanted) => ParseFailure::UnexpectedToken(
                *found,
                wanted@,
            ),
            ParseError::ExpectedEOF(found) => ParseFailure::ExpectedEOF(*found),
        }
    }
}

/// What a parsing step yields: a tree and the position after it, or a failure.
pub type Parsed = Result<(Node, nat), ParseFailure>;

/// The tokens that may begin an atomic pattern, as reported in an error.
pub open spec fn atomic_starts() -> Seq<TokenKind> {
    seq![TokenKind::Char('c'), TokenKind::LPare]
}

/// Whether the token at `pos` begins another operand of a sequence.
pub open spec fn starts_operand(tokens: Seq<TokenKind>, pos: nat) -> bool {
    pos < tokens.len() && (tokens[pos as int] is Char || tokens[pos as int] is LPare)
}

/// `atomic := char | '(' sequence ')'`, read at `pos`.
pub open spec fn parse_atomic_spec(tokens: Seq<TokenKind>, pos: nat) -> Parsed
    decreases tokens.len() - pos, 0nat,
{
    if pos >= tokens.len() {
        Err(ParseFailure::UnexpectedEOF)
    } else {
        match tokens[pos as int] {
            TokenKind::Char(c) => Ok((Node::Char(c), pos + 1)),
            TokenKind::LPare => match parse_sequence_spec(tokens, pos + 1) {
                Err(e) => Err(e),
                Ok((seq, after)) => match consume_token_spec(tokens, after, TokenKind::RPare) {
                    Err(e) => Err(e),
                    Ok(end) => Ok((seq, end)),
                },
            },
            found => Err(ParseFailure::UnexpectedToken(found, atomic_starts())),
        }
    }
}

/// The position after the token `t`, which must stand at `pos`.
pub open spec fn consume_token_spec(tokens: Seq<TokenKind>, pos: nat, t: TokenKind) -> Result<
    nat,
    ParseFailure,
> {
    if pos >= tokens.len() {
        Err(ParseFailure::UnexpectedEOF)
    } else if tokens[pos as int] == t {
        Ok(pos + 1)
    } else {
        Err(ParseFailure::UnexpectedToken(tokens[pos as int], seq![t]))
    }
}

/// `unary := atomic '*'?`, read at `pos`.
pub open spec fn parse_unary_spec(tokens: Seq<TokenKind>, pos: nat) -> Parsed
    decreases tokens.len() - pos, 1nat,
{
    match parse_atomic_spec(tokens, pos) {
        Err(e) => Err(e),
        Ok((left, after)) => if after < tokens.len() && tokens[after as int] is Star {
            Ok((Node::Repeat(Box::new(left)), after + 1))
        } else {
            Ok((left, after))
        },
    }
}

/// `binary := unary ( '|' unary )?`, read at `pos`.
pub open spec fn parse_binary_spec(tokens: Seq<TokenKind>, pos: nat) -> Parsed
    decreases tokens.len() - pos, 2nat,
{
    match parse_unary_spec(tokens, pos) {
        Err(e) => Err(e),
        Ok((left, after)) => if pos <= after < tokens.len() && tokens[after as int] is Bar {
            match parse_unary_spec(tokens, after + 1) {
                Err(e) => Err(e),
                Ok((right, end)) => Ok((Node::Or(Box::new(left), Box::new(right)), end)),
            }
        } else {
            Ok((left, after))
        },
    }
}

/// The operands that follow `left` in a sequence, folded onto it from the left.
pub open spec fn parse_operands_spec(tokens: Seq<TokenKind>, pos: nat, left: Node) -> Parsed
    decreases tokens.len() - pos, 3nat,
{
    if starts_operand(tokens, pos) {
        match parse_binary_spec(tokens, pos) {
            Err(e) => Err(e),
            Ok((right, after)) => if pos < after <= tokens.len() {
                parse_operands_spec(tokens, after, Node::Concat(Box::new(left), Box::new(right)))
            } else {
                Ok((left, pos))
            },
        }
    } else {
        Ok((left, pos))
    }
}

/// `sequence := binary binary*`, read at `pos`.
pub open spec fn parse_sequence_spec(tokens: Seq<TokenKind>, pos: nat) -> Parsed
    decreases tokens.len() - pos, 4nat,
{
    match parse_binary_spec(tokens, pos) {
        Err(e) => Err(e),
        Ok((left, after)) => if pos < after <= tokens.len() {
            parse_operands_spec(tokens, after, left)
        } else {
            Ok((left, after))
        },
    }
}

/// The tree of a whole token sequence: one sequence with nothing after it.
pub open spec fn parse_spec(tokens: Seq<TokenKind>) -> Result<Node, ParseFailure> {
    match parse_sequence_spec(tokens, 0) {
        Err(e) => Err(e),
        Ok((seq, after)) => if after < tokens.len() {
            Err(ParseFailure::ExpectedEOF(tokens[after as int]))
        } else {
            Ok(seq)
        },
    }
}

/// The mathematical value of what a parsing function returns.
pub open spec fn parsed_view(r: Result<(Node, usize), ParseError>) -> Parsed {
    match r {
        Ok((node, after)) => Ok((node, after as nat)),
        Err(e) => Err(e@),
    }
}

/// A successful step from `pos` consumed at least one token, stayed within the
/// tokens, and built at most two nodes per token consumed, less one.
pub open spec fn advances(r: Parsed, tokens: Seq<TokenKind>, pos: nat) -> bool {
    r matches Ok((node, after)) ==> pos < after <= tokens.len() && node.size() + 1 <= 2 * (after
        - pos)
}

impl Node {
    /// The number of nodes of the tree.
    pub open spec fn size(self) -> nat
        decreases self,
    {
        match self {
            Node::Char(_) => 1,
            Node::Concat(left, right) => 1 + left.size() + right.size(),
            Node::Or(left, right) => 1 + left.size() + right.size(),
            Node::Repeat(inner) => 1 + inner.size(),
        }
    }

    /// Parses a whole token sequence into a tree.
    pub fn parse(tokens: &[TokenKind]) -> (r: Result<Node, ParseError>)
        ensures
            match r {
                Ok(node) => parse_spec(tokens@) == Ok::<Node, ParseFailure>(node),
                Err(e) => parse_spec(tokens@) == Err::<Node, ParseFailure>(e@),
            },
            r matches Ok(node) ==> 1 <= node.size() < 2 * tokens@.len(),
    {
        match Self::parse_sequence(tokens, 0) {
            Err(e) => Err(e),
            Ok((seq, after)) => {
                if after < tokens.len() {
                    Err(ParseError::ExpectedEOF(tokens[after]))
                } else {
                    Ok(seq)
                }
            },
        }
    }

    /// Parses a sequence of operands that starts at `pos`.
    pub fn parse_sequence(tokens: &[TokenKind], pos: usize) -> (r: Result<
        (Node, usize),
        ParseError,
    >)
        ensures
            parsed_view(r) == parse_sequence_spec(tokens@, pos as nat),
            advances(parsed_view(r), tokens@, pos as nat),
        decreases tokens@.len() - pos, 4nat,
    {
        if pos > tokens.len() {
            return Err(ParseError::UnexpectedEOF);
        }
        let (first, start) = match Self::parse_binary(tokens, pos) {
            Err(e) => { return Err(e); },
            Ok(found) => found,
        };
        let mut left = first;
        let mut at: usize = start;
        while at < tokens.len() && Self::begins_operand(&tokens[at])
            invariant
                pos < at <= tokens@.len(),
                left.size() + 1 <= 2 * (at - pos),
                parse_sequence_spec(tokens@, pos as nat) == parse_operands_spec(
                    tokens@,
                    at as nat,
                    left,
                ),
            decreases tokens@.len() - at,
        {
            match Self::parse_binary(tokens, at) {
                Err(e) => { return Err(e); },
                Ok((right, after)) => {
                    left = Node::Concat(Box::new(left), Box::new(right));
                    at = after;
                },
            }
        }
        Ok((left, at))
    }

    /// Whether a token can begin an operand of a sequence.
    fn begins_operand(t: &TokenKind) -> (b: bool)
        ensures
            b == (t is Char || t is LPare),
    {
        match t {
            TokenKind::Char(_) => true,
            TokenKind::LPare => true,
            _ => false,
        }
    }

    /// Parses one operand, with an alternative if a bar follows it.
    fn parse_binary(tokens: &[TokenKind], pos: usize) -> (r: Result<(Node, usize), ParseError>)
        requires
            pos <= tokens@.len(),
        ensures
            parsed_view(r) == parse_binary_spec(tokens@, pos as nat),
            advances(parsed_view(r), tokens@, pos as nat),
        decreases tokens@.len() - pos, 2nat,
    {
        let (left, after) = match Self::parse_unary(tokens, pos) {
            Err(e) => { return Err(e); },
            Ok(found) => found,
        };
        if after < tokens.len() && Self::is_token(&tokens[after], TokenKind::Bar) {
            match Self::parse_unary(tokens, after + 1) {
                Err(e) => Err(e),
                Ok((right, end)) => Ok((Node::Or(Box::new(left), Box::new(right)), end)),
            }
        } else {
            Ok((left, after))
        }
    }

    /// Whether two tokens are the same.
    fn is_token(found: &TokenKind, t: TokenKind) -> (b: bool)
        ensures
            b == (*found == t),
    {
        *found == t
    }

    /// Parses an atomic pattern, repeated if a star follows it.
    fn parse_unary(tokens: &[TokenKind], pos: usize) -> (r: Result<(Node, usize), ParseError>)
        requires
            pos <= tokens@.len(),
        ensures
            parsed_view(r) == parse_unary_spec(tokens@, pos as nat),
            advances(parsed_view(r), tokens@, pos as nat),
        decreases tokens@.len() - pos, 1nat,
    {
        let (left, after) = match Self::parse_atomic(tokens, pos) {
            Err(e) => { return Err(e); },
            Ok(found) => found,
        };
        if after < tokens.len() && Self::is_token(&tokens[after], TokenKind::Star) {
            Ok((Node::Repeat(Box::new(left)), after + 1))
        } else {
            Ok((left, after))
        }
    }

    /// Parses a literal character or a parenthesized sequence.
    fn parse_atomic(tokens: &[TokenKind], pos: usize) -> (r: Result<(Node, usize), ParseError>)
        requires
            pos <= tokens@.len(),
        ensures
            parsed_view(r) == parse_atomic_spec(tokens@, pos as nat),
            advances(parsed_view(r), tokens@, pos as nat),
        decreases tokens@.len() - pos, 0nat,
    {
        if pos >= tokens.len() {
            return Err(ParseError::UnexpectedEOF);
        }
        match tokens[pos] {
            TokenKind::Char(c) => Ok((Node::Char(c), pos + 1)),
            TokenKind::LPare => {
                let (seq, after) = match Self::parse_sequence(tokens, pos + 1) {
                    Err(e) => { return Err(e); },
                    Ok(found) => found,
                };
                match Self::consume_token(tokens, after, TokenKind::RPare) {
                    Err(e) => Err(e),
                    Ok(end) => Ok((seq, end)),
                }
            },
            found => {
                let mut wanted: Vec<TokenKind> = Vec::new();
                wanted.push(TokenKind::Char('c'));
                wanted.push(TokenKind::LPare);
                assert(wanted@ =~= atomic_starts());
                Err(ParseError::UnexpectedToken(found, wanted))
            },
        }
    }

    /// Steps over the token `t`, which must stand at `pos`.
    fn consume_token(tokens: &[TokenKind], pos: usize, t: TokenKind) -> (r: Result<
        usize,
        ParseError,
    >)
        requires
            pos <= tokens@.len(),
        ensures
            match r {
                Ok(end) => consume_token_spec(tokens@, pos as nat, t) == Ok::<nat, ParseFailure>(
                    end as nat,
                ),
                Err(e) => consume_token_spec(tokens@, pos as nat, t) == Err::<nat, ParseFailure>(
                    e@,
                ),
            },
            r matches Ok(end) ==> end == pos + 1 && pos < tokens@.len(),
    {
        if pos < tokens.len() {
            if Self::is_token(&tokens[pos], t) {
                Ok(pos + 1)
            } else {
                let mut wanted: Vec<TokenKind> = Vec::new();
                wanted.push(t);
                assert(wanted@ =~= seq![t]);
                Err(ParseError::UnexpectedToken(tokens[pos], wanted))
            }
        } else {
            Err(ParseError::UnexpectedEOF)
        }
    }
}

} // verus!
