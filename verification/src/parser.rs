//! The parser: from tokens to a syntax tree.
//!
//! The grammar of expressions, from the loosest binding to the tightest:
//!
//! | level | operators | |
//! |---|---|---|
//! | 1 | `\|` | left-associative |
//! | 2 | `&` | left-associative |
//! | 3 | `==` `!=` | left-associative |
//! | 4 | `<` `>` `<-` `->` | left-associative |
//! | 5 | `+` `-` | left-associative |
//! | 6 | `*` `/` `%` | left-associative |
//! | | `-` `!` in front of an operand | right-associative |
//! | | literals, identifiers, `(` expression `)` | |
//!
//! [`expression`] defines what the parser makes of a run of tokens. It stops at the
//! first error. Parentheses and operators in front of an operand may nest
//! [`MAX_DEPTH`] deep and no deeper, which bounds the recursion.

use vstd::prelude::*;
use crate::lex::{lex_chars, tokens_of};
use crate::parser_laws::{law_expression_reads_its_tokens, law_tree_reads_all_tokens};
use crate::source::{classified_text, classify_str, SourceChar};
use crate::token::{token_views, LexError, SpecToken, Token};
use crate::tree::{BinaryOp, Grammar, ParseNode, SpecGrammar, SpecNode, UnaryOp};

verus! {

/// How deep parentheses and operators in front of an operand may nest.
pub const MAX_DEPTH: usize = 128;

/// The loosest binding level.
pub const LOWEST: u8 = 1;

/// Why the parser gave up.
#[derive(Debug, PartialEq)]
pub enum ParseError {
    /// The source is not even a token stream.
    Lex(LexError),
    /// The token `found` at index `pos` cannot stand there.
    UnexpectedToken { found: Token, pos: usize },
    /// The tokens end, or the end-of-stream marker stands where an operand must begin.
    UnexpectedEOF,
    /// An expression was read, but the token at this index follows it.
    TrailingInput(usize),
    /// Parentheses and operators in front of an operand nest deeper than [`MAX_DEPTH`].
    NestingTooDeep,
}

/// The mathematical value of a [`ParseError`].
pub enum SpecParseError {
    Lex(LexError),
    UnexpectedToken { found: SpecToken, pos: nat },
    UnexpectedEOF,
    TrailingInput(nat),
    NestingTooDeep,
}

impl View for ParseError {
    type V = SpecParseError;

    open spec fn view(&self) -> SpecParseError {
        match self {
            ParseError::Lex(e) => SpecParseError::Lex(*e),
            ParseError::UnexpectedToken { found, pos } => SpecParseError::UnexpectedToken {
                found: found@,
                pos: *pos as nat,
            },
            ParseError::UnexpectedEOF => SpecParseError::UnexpectedEOF,
            ParseError::TrailingInput(pos) => SpecParseError::TrailingInput(*pos as nat),
            ParseError::NestingTooDeep => SpecParseError::NestingTooDeep,
        }
    }
}

/// The binary operator that `token` spells, if it spells one.
pub open spec fn binary_op(token: SpecToken) -> Option<BinaryOp> {
    match token {
        SpecToken::Or => Some(BinaryOp::Or),
        SpecToken::And => Some(BinaryOp::And),
        SpecToken::ComparativeEqual => Some(BinaryOp::Equal),
        SpecToken::NotEqual => Some(BinaryOp::NotEqual),
        SpecToken::LessThan => Some(BinaryOp::Less),
        SpecToken::GreaterThan => Some(BinaryOp::Greater),
        SpecToken::LArrow => Some(BinaryOp::LArrow),
        SpecToken::RArrow => Some(BinaryOp::RArrow),
        SpecToken::Plus => Some(BinaryOp::Add),
        SpecToken::Minus => Some(BinaryOp::Sub),
        SpecToken::Multiply => Some(BinaryOp::Mul),
        SpecToken::Divide => Some(BinaryOp::Div),
        SpecToken::Modulo => Some(BinaryOp::Rem),
        _ => None,
    }
}

/// The operator that `token` spells in front of an operand, if it spells one.
pub open spec fn unary_op(token: SpecToken) -> Option<UnaryOp> {
    match token {
        SpecToken::Minus => Some(UnaryOp::Neg),
        SpecToken::Not => Some(UnaryOp::Not),
        _ => None,
    }
}

/// The binding level of `op`; a higher level binds tighter.
pub open spec fn precedence(op: BinaryOp) -> nat {
    match op {
        BinaryOp::Or => 1,
        BinaryOp::And => 2,
        BinaryOp::Equal | BinaryOp::NotEqual => 3,
        BinaryOp::Less | BinaryOp::Greater | BinaryOp::LArrow | BinaryOp::RArrow => 4,
        BinaryOp::Add | BinaryOp::Sub => 5,
        BinaryOp::Mul | BinaryOp::Div | BinaryOp::Rem => 6,
    }
}

/// The leaf that `token` is, if it is a literal or an identifier.
pub open spec fn leaf_entry(token: SpecToken) -> Option<SpecGrammar> {
    match token {
        SpecToken::Number(n) => Some(SpecGrammar::Number(n)),
        SpecToken::Float(text) => Some(SpecGrammar::Float(text)),
        SpecToken::String(text) => Some(SpecGrammar::String(text)),
        SpecToken::Identifier(name) => Some(SpecGrammar::Identifier(name)),
        _ => None,
    }
}

/// The error for what stands at `pos` where an operand must begin: the end of the
/// tokens or the end-of-stream marker is an unexpected end, anything else an
/// unexpected token.
pub open spec fn unexpected(ts: Seq<SpecToken>, pos: nat) -> SpecParseError {
    if pos >= ts.len() || ts[pos as int] == SpecToken::EOF {
        SpecParseError::UnexpectedEOF
    } else {
        SpecParseError::UnexpectedToken { found: ts[pos as int], pos }
    }
}

/// The error for what stands at `pos` in place of a closing parenthesis: whatever
/// token stands there is unexpected, be it the end-of-stream marker; only where the
/// tokens themselves end is it an unexpected end.
pub open spec fn unclosed(ts: Seq<SpecToken>, pos: nat) -> SpecParseError {
    if pos >= ts.len() {
        SpecParseError::UnexpectedEOF
    } else {
        SpecParseError::UnexpectedToken { found: ts[pos as int], pos }
    }
}

/// How many tokens are left from `pos` on.
pub open spec fn remaining(ts: Seq<SpecToken>, pos: nat) -> nat {
    if pos <= ts.len() {
        (ts.len() - pos) as nat
    } else {
        0
    }
}

/// A tree together with the number of tokens that it spans, or an error.
pub type Parsed = Result<(SpecNode, nat), SpecParseError>;

/// `rest`, spanning `len` more tokens.
pub open spec fn advance(len: nat, rest: Parsed) -> Parsed {
    match rest {
        Ok((node, n)) => Ok((node, len + n)),
        Err(e) => Err(e),
    }
}

/// A literal, an identifier or a parenthesised expression at `pos`, below `depth`
/// enclosing parentheses and prefix operators.
pub open spec fn primary(ts: Seq<SpecToken>, pos: nat, depth: nat) -> Parsed
    decreases remaining(ts, pos), 1nat,
{
    if pos < ts.len() && ts[pos as int] == SpecToken::LParen {
        if depth >= MAX_DEPTH {
            Err(SpecParseError::NestingTooDeep)
        } else {
            match expression(ts, pos + 1, LOWEST as nat, depth + 1) {
                Ok((inner, len)) => {
                    let close = pos + 1 + len;
                    if close < ts.len() && ts[close as int] == SpecToken::RParen {
                        Ok((SpecNode::group(inner), len + 2))
                    } else {
                        Err(unclosed(ts, close))
                    }
                },
                Err(e) => Err(e),
            }
        }
    } else if pos < ts.len() && leaf_entry(ts[pos as int]) is Some {
        Ok((SpecNode::leaf(leaf_entry(ts[pos as int]).unwrap()), 1))
    } else {
        Err(unexpected(ts, pos))
    }
}

/// A primary at `pos` with any number of `-` and `!` in front of it.
pub open spec fn operand(ts: Seq<SpecToken>, pos: nat, depth: nat) -> Parsed
    decreases remaining(ts, pos), 2nat,
{
    if pos < ts.len() && unary_op(ts[pos as int]) is Some {
        if depth >= MAX_DEPTH {
            Err(SpecParseError::NestingTooDeep)
        } else {
            match operand(ts, pos + 1, depth + 1) {
                Ok((inner, len)) => Ok(
                    (SpecNode::unary(unary_op(ts[pos as int]).unwrap(), inner), len + 1),
                ),
                Err(e) => Err(e),
            }
        }
    } else {
        primary(ts, pos, depth)
    }
}

/// An expression at `pos` whose binary operators all bind at level `min_prec` or
/// tighter: an operand followed by as many operators and right-hand sides as bind
/// that tightly.
pub open spec fn expression(ts: Seq<SpecToken>, pos: nat, min_prec: nat, depth: nat) -> Parsed
    decreases remaining(ts, pos), 3nat,
{
    match operand(ts, pos, depth) {
        Ok((left, len)) => advance(len, continuation(ts, left, pos + len, min_prec, depth)),
        Err(e) => Err(e),
    }
}

/// What `left` becomes when the operators from `pos` on that bind at level
/// `min_prec` or tighter are applied to it, one after the other. The right-hand side
/// of an operator holds only operators that bind tighter than the operator itself,
/// so operators of one level group to the left.
pub open spec fn continuation(
    ts: Seq<SpecToken>,
    left: SpecNode,
    pos: nat,
    min_prec: nat,
    depth: nat,
) -> Parsed
    decreases remaining(ts, pos), 0nat,
{
    if pos < ts.len() && binary_op(ts[pos as int]) is Some && precedence(
        binary_op(ts[pos as int]).unwrap(),
    ) >= min_prec {
        let op = binary_op(ts[pos as int]).unwrap();
        match expression(ts, pos + 1, precedence(op) + 1, depth) {
            Ok((right, len)) => advance(
                len + 1,
                continuation(
                    ts,
                    SpecNode::binary(op, left, right),
                    pos + 1 + len,
                    min_prec,
                    depth,
                ),
            ),
            Err(e) => Err(e),
        }
    } else {
        Ok((left, 0))
    }
}

/// The tree of a whole run of tokens: one expression from the first token on, then
/// the end-of-stream marker if there is one, and nothing after that.
pub open spec fn tree_of(ts: Seq<SpecToken>) -> Result<SpecNode, SpecParseError> {
    match expression(ts, 0, LOWEST as nat, 0) {
        Ok((node, len)) => {
            let end = if len < ts.len() && ts[len as int] == SpecToken::EOF {
                len + 1
            } else {
                len
            };
            if end == ts.len() {
                Ok(node)
            } else {
                Err(SpecParseError::TrailingInput(end))
            }
        },
        Err(e) => Err(e),
    }
}

/// The tree of a source: the tree of its tokens, or the error of the scanner.
pub open spec fn tree_of_source(source: Seq<SourceChar>) -> Result<SpecNode, SpecParseError> {
    match tokens_of(source) {
        Ok(ts) => tree_of(ts),
        Err(e) => Err(SpecParseError::Lex(e)),
    }
}

/// The value of what a parsing step that began at `pos` returns.
pub open spec fn parsed(r: Result<(ParseNode, usize), ParseError>, pos: usize) -> Parsed {
    match r {
        Ok((node, next)) => Ok((node@, (next - pos) as nat)),
        Err(e) => Err(e@),
    }
}

/// The value of what the parser returns.
pub open spec fn parsed_tree(r: Result<ParseNode, ParseError>) -> Result<SpecNode, SpecParseError> {
    match r {
        Ok(node) => Ok(node@),
        Err(e) => Err(e@),
    }
}

/// Spanning `b` and then `a` more tokens is spanning `a + b` more.
pub proof fn lemma_advance_advance(a: nat, b: nat, rest: Parsed)
    ensures
        advance(a, advance(b, rest)) == advance(a + b, rest),
{
}

/// The binary operator that `token` spells, if it spells one.
pub fn binary_op_of(token: &Token) -> (op: Option<BinaryOp>)
    ensures
        op == binary_op(token@),
{
    match token {
        Token::Or => Some(BinaryOp::Or),
        Token::And => Some(BinaryOp::And),
        Token::ComparativeEqual => Some(BinaryOp::Equal),
        Token::NotEqual => Some(BinaryOp::NotEqual),
        Token::LessThan => Some(BinaryOp::Less),
        Token::GreaterThan => Some(BinaryOp::Greater),
        Token::LArrow => Some(BinaryOp::LArrow),
        Token::RArrow => Some(BinaryOp::RArrow),
        Token::Plus => Some(BinaryOp::Add),
        Token::Minus => Some(BinaryOp::Sub),
        Token::Multiply => Some(BinaryOp::Mul),
        Token::Divide => Some(BinaryOp::Div),
        Token::Modulo => Some(BinaryOp::Rem),
        _ => None,
    }
}

/// The operator that `token` spells in front of an operand, if it spells one.
pub fn unary_op_of(token: &Token) -> (op: Option<UnaryOp>)
    ensures
        op == unary_op(token@),
{
    match token {
        Token::Minus => Some(UnaryOp::Neg),
        Token::Not => Some(UnaryOp::Not),
        _ => None,
    }
}

/// The binding level of `op`.
pub fn precedence_of(op: BinaryOp) -> (level: u8)
    ensures
        level == precedence(op),
        1 <= level <= 6,
{
    match op {
        BinaryOp::Or => 1,
        BinaryOp::And => 2,
        BinaryOp::Equal | BinaryOp::NotEqual => 3,
        BinaryOp::Less | BinaryOp::Greater | BinaryOp::LArrow | BinaryOp::RArrow => 4,
        BinaryOp::Add | BinaryOp::Sub => 5,
        BinaryOp::Mul | BinaryOp::Div | BinaryOp::Rem => 6,
    }
}

/// The error for what stands at `pos` where an operand must begin.
pub fn unexpected_at(tokens: &[Token], pos: usize) -> (e: ParseError)
    ensures
        e@ == unexpected(token_views(tokens@), pos as nat),
{
    if pos >= tokens.len() {
        return ParseError::UnexpectedEOF;
    }
    match &tokens[pos] {
        Token::EOF => ParseError::UnexpectedEOF,
        other => ParseError::UnexpectedToken { found: other.clone(), pos },
    }
}

/// Parses a literal, an identifier or a parenthesised expression at `pos`.
pub fn parse_primary(tokens: &[Token], pos: usize, depth: usize) -> (r: Result<
    (ParseNode, usize),
    ParseError,
>)
    ensures
        parsed(r, pos) == primary(token_views(tokens@), pos as nat, depth as nat),
        r matches Ok((_, next)) ==> pos < next <= tokens.len(),
    decreases tokens.len() - pos, 1nat,
{
    if pos >= tokens.len() {
        return Err(ParseError::UnexpectedEOF);
    }
    let ghost ts = token_views(tokens@);
    assert(ts[pos as int] == tokens@[pos as int]@);
    match &tokens[pos] {
        Token::LParen => {
            if depth >= MAX_DEPTH {
                return Err(ParseError::NestingTooDeep);
            }
            match parse_binary(tokens, pos + 1, LOWEST, depth + 1) {
                Ok((inner, close)) => {
                    if close >= tokens.len() {
                        return Err(ParseError::UnexpectedEOF);
                    }
                    assert(ts[close as int] == tokens@[close as int]@);
                    match &tokens[close] {
                        Token::RParen => Ok((ParseNode::group(inner), close + 1)),
                        other => Err(
                            ParseError::UnexpectedToken { found: other.clone(), pos: close },
                        ),
                    }
                },
                Err(e) => Err(e),
            }
        },
        Token::Number(n) => Ok((ParseNode::leaf(Grammar::Number(*n)), pos + 1)),
        Token::Float(text) => Ok((ParseNode::leaf(Grammar::Float(text.clone())), pos + 1)),
        Token::String(text) => Ok((ParseNode::leaf(Grammar::String(text.clone())), pos + 1)),
        Token::Identifier(name) => Ok(
            (ParseNode::leaf(Grammar::Identifier(name.clone())), pos + 1),
        ),
        _ => Err(unexpected_at(tokens, pos)),
    }
}

/// Parses a primary at `pos` with the `-` and `!` in front of it.
pub fn parse_operand(tokens: &[Token], pos: usize, depth: usize) -> (r: Result<
    (ParseNode, usize),
    ParseError,
>)
    ensures
        parsed(r, pos) == operand(token_views(tokens@), pos as nat, depth as nat),
        r matches Ok((_, next)) ==> pos < next <= tokens.len(),
    decreases tokens.len() - pos, 2nat,
{
    if pos < tokens.len() {
        assert(token_views(tokens@)[pos as int] == tokens@[pos as int]@);
        if let Some(op) = unary_op_of(&tokens[pos]) {
            if depth >= MAX_DEPTH {
                return Err(ParseError::NestingTooDeep);
            }
            return match parse_operand(tokens, pos + 1, depth + 1) {
                Ok((inner, next)) => Ok((ParseNode::unary(op, inner), next)),
                Err(e) => Err(e),
            };
        }
    }
    parse_primary(tokens, pos, depth)
}

/// Parses an expression at `pos` whose binary operators all bind at level
/// `min_prec` or tighter.
pub fn parse_binary(tokens: &[Token], pos: usize, min_prec: u8, depth: usize) -> (r: Result<
    (ParseNode, usize),
    ParseError,
>)
    ensures
        parsed(r, pos) == expression(
            token_views(tokens@),
            pos as nat,
            min_prec as nat,
            depth as nat,
        ),
        r matches Ok((_, next)) ==> pos < next <= tokens.len(),
    decreases tokens.len() - pos, 3nat,
{
    let ghost ts = token_views(tokens@);
    let (mut left, mut next) = match parse_operand(tokens, pos, depth) {
        Ok(found) => found,
        Err(e) => {
            return Err(e);
        },
    };
    loop
        invariant
            ts == token_views(tokens@),
            pos < next <= tokens.len(),
            expression(ts, pos as nat, min_prec as nat, depth as nat) == advance(
                (next - pos) as nat,
                continuation(ts, left@, next as nat, min_prec as nat, depth as nat),
            ),
        decreases tokens.len() - next,
    {
        if next >= tokens.len() {
            return Ok((left, next));
        }
        assert(ts[next as int] == tokens@[next as int]@);
        let op = match binary_op_of(&tokens[next]) {
            Some(op) => op,
            None => {
                return Ok((left, next));
            },
        };
        let level = precedence_of(op);
        if level < min_prec {
            return Ok((left, next));
        }
        match parse_binary(tokens, next + 1, level + 1, depth) {
            Ok((right, after)) => {
                proof {
                    lemma_advance_advance(
                        (next - pos) as nat,
                        (after - next) as nat,
                        continuation(
                            ts,
                            SpecNode::binary(op, left@, right@),
                            after as nat,
                            min_prec as nat,
                            depth as nat,
                        ),
                    );
                }
                left = ParseNode::binary(op, left, right);
                next = after;
            },
            Err(e) => {
                return Err(e);
            },
        }
    }
}

/// Parses one expression that begins at token `pos`. Returns its tree and the index
/// of the first token after it.
pub fn parse_expr(tokens: &[Token], pos: usize) -> (r: Result<(ParseNode, usize), ParseError>)
    ensures
        parsed(r, pos) == expression(token_views(tokens@), pos as nat, LOWEST as nat, 0),
        r matches Ok((node, next)) ==> pos < next <= tokens.len() && node@.well_formed(),
{
    proof {
        law_expression_reads_its_tokens(token_views(tokens@), pos as nat, LOWEST as nat, 0);
    }
    parse_binary(tokens, pos, LOWEST, 0)
}

/// Parses a whole run of tokens: one expression, followed by the end-of-stream
/// marker or by nothing.
pub fn parse_tokens(tokens: &[Token]) -> (r: Result<ParseNode, ParseError>)
    ensures
        parsed_tree(r) == tree_of(token_views(tokens@)),
        r matches Ok(node) ==> node@.well_formed(),
{
    proof {
        law_tree_reads_all_tokens(token_views(tokens@));
    }
    match parse_expr(tokens, 0) {
        Ok((node, next)) => {
            let mut end = next;
            if next < tokens.len() {
                assert(token_views(tokens@)[next as int] == tokens@[next as int]@);
                if let Token::EOF = &tokens[next] {
                    end = next + 1;
                }
            }
            if end == tokens.len() {
                Ok(node)
            } else {
                Err(ParseError::TrailingInput(end))
            }
        },
        Err(e) => Err(e),
    }
}

/// Scans and parses a source whose characters come with their properties.
pub fn parse_chars(source: &[SourceChar]) -> (r: Result<ParseNode, ParseError>)
    ensures
        parsed_tree(r) == tree_of_source(source@),
        r matches Ok(node) ==> node@.well_formed(),
{
    match lex_chars(source) {
        Ok(tokens) => parse_tokens(tokens.as_slice()),
        Err(e) => Err(ParseError::Lex(e)),
    }
}

/// Scans and parses `input`: the properties of each character are looked up, the
/// text is scanned, and the tokens are parsed as one expression.
pub fn parse(input: &String) -> (r: Result<ParseNode, ParseError>)
    ensures
        parsed_tree(r) == tree_of_source(classified_text(input@)),
        r matches Ok(node) ==> node@.well_formed(),
{
    let source = classify_str(input.as_str());
    parse_chars(source.as_slice())
}

} // verus!
