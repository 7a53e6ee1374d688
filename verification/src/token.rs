//! The lexeme kinds that the scanner emits, and the ways in which scanning fails.

use vstd::prelude::*;

verus! {

/// A lexeme of the source language.
///
/// A floating literal keeps its digits as written (`"1.25"`): the scanner has checked
/// that its whole part stays below [`crate::literal::float_limit`], so the text denotes
/// a finite double-precision number, and turning it into one is left to the caller.
#[derive(Debug, PartialEq)]
pub enum Token {
    Number(i64),
    Float(String),
    String(String),
    Identifier(String),
    Plus,
    Minus,
    Multiply,
    Divide,
    Modulo,
    LParen,
    RParen,
    Break,
    Do,
    If,
    ElseIf,
    Goto,
    In,
    Indent,
    Dedent,
    Newl,
    And,
    Or,
    Not,
    True,
    False,
    LessThan,
    GreaterThan,
    Equal,
    ComparativeEqual,
    LArrow,
    RArrow,
    NotEqual,
    Dot,
    Semicolon,
    LBrace,
    RBrace,
    LSquareBracket,
    RSquareBracket,
    Comma,
    Nil,
    For,
    Package,
    EOF,
}

/// The mathematical value of a [`Token`]: the same variants, with text as a sequence
/// of characters.
pub enum SpecToken {
    Number(i64),
    Float(Seq<char>),
    String(Seq<char>),
    Identifier(Seq<char>),
    Plus,
    Minus,
    Multiply,
    Divide,
    Modulo,
    LParen,
    RParen,
    Break,
    Do,
    If,
    ElseIf,
    Goto,
    In,
    Indent,
    Dedent,
    Newl,
    And,
    Or,
    Not,
    True,
    False,
    LessThan,
    GreaterThan,
    Equal,
    ComparativeEqual,
    LArrow,
    RArrow,
    NotEqual,
    Dot,
    Semicolon,
    LBrace,
    RBrace,
    LSquareBracket,
    RSquareBracket,
    Comma,
    Nil,
    For,
    Package,
    EOF,
}

impl View for Token {
    type V = SpecToken;

    open spec fn view(&self) -> SpecToken {
        match self {
            Token::Number(n) => SpecToken::Number(*n),
            Token::Float(s) => SpecToken::Float(s@),
            Token::String(s) => SpecToken::String(s@),
            Token::Identifier(s) => SpecToken::Identifier(s@),
            Token::Plus => SpecToken::Plus,
            Token::Minus => SpecToken::Minus,
            Token::Multiply => SpecToken::Multiply,
            Token::Divide => SpecToken::Divide,
            Token::Modulo => SpecToken::Modulo,
            Token::LParen => SpecToken::LParen,
            Token::RParen => SpecToken::RParen,
            Token::Break => SpecToken::Break,
            Token::Do => SpecToken::Do,
            Token::If => SpecToken::If,
            Token::ElseIf => SpecToken::ElseIf,
            Token::Goto => SpecToken::Goto,
            Token::In => SpecToken::In,
            Token::Indent => SpecToken::Indent,
            Token::Dedent => SpecToken::Dedent,
            Token::Newl => SpecToken::Newl,
            Token::And => SpecToken::And,
            Token::Or => SpecToken::Or,
            Token::Not => SpecToken::Not,
            Token::True => SpecToken::True,
            Token::False => SpecToken::False,
            Token::LessThan => SpecToken::LessThan,
            Token::GreaterThan => SpecToken::GreaterThan,
            Token::Equal => SpecToken::Equal,
            Token::ComparativeEqual => SpecToken::ComparativeEqual,
            Token::LArrow => SpecToken::LArrow,
            Token::RArrow => SpecToken::RArrow,
            Token::NotEqual => SpecToken::NotEqual,
            Token::Dot => SpecToken::Dot,
            Token::Semicolon => SpecToken::Semicolon,
            Token::LBrace => SpecToken::LBrace,
            Token::RBrace => SpecToken::RBrace,
            Token::LSquareBracket => SpecToken::LSquareBracket,
            Token::RSquareBracket => SpecToken::RSquareBracket,
            Token::Comma => SpecToken::Comma,
            Token::Nil => SpecToken::Nil,
            Token::For => SpecToken::For,
            Token::Package => SpecToken::Package,
            Token::EOF => SpecToken::EOF,
        }
    }
}

impl Clone for Token {
    fn clone(&self) -> (copy: Self)
        ensures
            copy@ == self@,
    {
        match self {
            Token::Number(n) => Token::Number(*n),
            Token::Float(s) => Token::Float(s.clone()),
            Token::String(s) => Token::String(s.clone()),
            Token::Identifier(s) => Token::Identifier(s.clone()),
            Token::Plus => Token::Plus,
            Token::Minus => Token::Minus,
            Token::Multiply => Token::Multiply,
            Token::Divide => Token::Divide,
            Token::Modulo => Token::Modulo,
            Token::LParen => Token::LParen,
            Token::RParen => Token::RParen,
            Token::Break => Token::Break,
            Token::Do => Token::Do,
            Token::If => Token::If,
            Token::ElseIf => Token::ElseIf,
            Token::Goto => Token::Goto,
            Token::In => Token::In,
            Token::Indent => Token::Indent,
            Token::Dedent => Token::Dedent,
            Token::Newl => Token::Newl,
            Token::And => Token::And,
            Token::Or => Token::Or,
            Token::Not => Token::Not,
            Token::True => Token::True,
            Token::False => Token::False,
            Token::LessThan => Token::LessThan,
            Token::GreaterThan => Token::GreaterThan,
            Token::Equal => Token::Equal,
            Token::ComparativeEqual => Token::ComparativeEqual,
            Token::LArrow => Token::LArrow,
            Token::RArrow => Token::RArrow,
            Token::NotEqual => Token::NotEqual,
            Token::Dot => Token::Dot,
            Token::Semicolon => Token::Semicolon,
            Token::LBrace => Token::LBrace,
            Token::RBrace => Token::RBrace,
            Token::LSquareBracket => Token::LSquareBracket,
            Token::RSquareBracket => Token::RSquareBracket,
            Token::Comma => Token::Comma,
            Token::Nil => Token::Nil,
            Token::For => Token::For,
            Token::Package => Token::Package,
            Token::EOF => Token::EOF,
        }
    }
}

/// The values of a run of tokens, in order.
pub open spec fn token_views(tokens: Seq<Token>) -> Seq<SpecToken> {
    Seq::new(tokens.len(), |i: int| tokens[i]@)
}

/// The values of a run with one more token are the values of the run with one more
/// value.
pub proof fn lemma_token_views_push(tokens: Seq<Token>, token: Token)
    ensures
        token_views(tokens.push(token)) == token_views(tokens).push(token@),
{
    assert(token_views(tokens.push(token)) =~= token_views(tokens).push(token@));
}

/// Why the scanner gave up. `UnexpectedChar` carries the character and its offset,
/// counted in characters from the start of the source.
#[derive(Debug, Clone, Copy, PartialEq, Eq)]
pub enum LexError {
    UnexpectedChar(char, usize),
    UnterminatedString,
    NumberOutOfRange,
    InconsistentIndent,
}

} // verus!
