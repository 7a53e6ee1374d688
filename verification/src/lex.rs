//! The scanner: from source text to tokens.
//!
//! [`tokens_of`] defines the token stream of a source. The scanner walks the source
//! from left to right. At the start of every line it measures the indentation and
//! opens or closes blocks accordingly; inside a line it takes one lexeme after the
//! other; at the end of the source it closes the blocks that are still open and
//! emits the end-of-stream marker.

use vstd::prelude::*;
use crate::indent::{
    apply_indent,
    close_blocks,
    closing,
    indent_change,
    indent_width,
    leading_blanks,
    lemma_indent_change_ok,
    levels,
    measure_indent,
    stack_ok,
};
use crate::literal::{
    lemma_string_body_len,
    number_lexeme,
    scan_number,
    scan_string,
    string_lexeme,
};
use crate::run::{is_digit, lemma_run_len, run_len, CharSet};
use crate::source::{classified_text, classify_str, SourceChar};
use crate::token::{lemma_token_views_push, token_views, LexError, SpecToken, Token};
use crate::lex_laws::law_tokens_form_a_stream;
use crate::stream::is_stream;
use crate::word::{scan_word, starts_word, word_lexeme};

verus! {

/// Whether the second character of `s` is `c`.
pub open spec fn followed_by(s: Seq<SourceChar>, c: char) -> bool {
    s.len() > 1 && s[1].ch == c
}

/// The operator or punctuation mark that begins `s`, with its length, if one does.
/// `->`, `<-`, `==` and `!=` take two characters; all others take one.
pub open spec fn symbol(s: Seq<SourceChar>) -> Option<(SpecToken, nat)> {
    let c = s[0].ch;
    if c == '+' {
        Some((SpecToken::Plus, 1))
    } else if c == '-' {
        if followed_by(s, '>') {
            Some((SpecToken::RArrow, 2))
        } else {
            Some((SpecToken::Minus, 1))
        }
    } else if c == '*' {
        Some((SpecToken::Multiply, 1))
    } else if c == '/' {
        Some((SpecToken::Divide, 1))
    } else if c == '%' {
        Some((SpecToken::Modulo, 1))
    } else if c == '(' {
        Some((SpecToken::LParen, 1))
    } else if c == ')' {
        Some((SpecToken::RParen, 1))
    } else if c == '{' {
        Some((SpecToken::LBrace, 1))
    } else if c == '}' {
        Some((SpecToken::RBrace, 1))
    } else if c == '[' {
        Some((SpecToken::LSquareBracket, 1))
    } else if c == ']' {
        Some((SpecToken::RSquareBracket, 1))
    } else if c == ',' {
        Some((SpecToken::Comma, 1))
    } else if c == ';' {
        Some((SpecToken::Semicolon, 1))
    } else if c == '.' {
        Some((SpecToken::Dot, 1))
    } else if c == '<' {
        if followed_by(s, '-') {
            Some((SpecToken::LArrow, 2))
        } else {
            Some((SpecToken::LessThan, 1))
        }
    } else if c == '>' {
        Some((SpecToken::GreaterThan, 1))
    } else if c == '=' {
        if followed_by(s, '=') {
            Some((SpecToken::ComparativeEqual, 2))
        } else {
            Some((SpecToken::Equal, 1))
        }
    } else if c == '!' {
        if followed_by(s, '=') {
            Some((SpecToken::NotEqual, 2))
        } else {
            Some((SpecToken::Not, 1))
        }
    } else if c == '&' {
        Some((SpecToken::And, 1))
    } else if c == '|' {
        Some((SpecToken::Or, 1))
    } else {
        None
    }
}

/// A lexeme with its token, if it has one.
pub open spec fn emitting(lexeme: Result<(SpecToken, nat), LexError>) -> Result<
    (Option<SpecToken>, nat),
    LexError,
> {
    match lexeme {
        Ok((token, len)) => Ok((Some(token), len)),
        Err(e) => Err(e),
    }
}

/// The lexeme that begins the non-empty `s`, which stands `offset` characters into
/// the source: its token, if it has one, and its length. A newline gives the
/// line-end marker; then come operators and punctuation, numbers and strings;
/// whitespace gives no token; what begins a word gives a word; anything else is
/// an error.
pub open spec fn lexeme(s: Seq<SourceChar>, offset: nat) -> Result<
    (Option<SpecToken>, nat),
    LexError,
> {
    let c = s[0];
    if c.ch == '\n' {
        Ok((Some(SpecToken::Newl), 1))
    } else if symbol(s) is Some {
        emitting(Ok(symbol(s).unwrap()))
    } else if is_digit(c.ch) {
        emitting(number_lexeme(s))
    } else if c.ch == '"' {
        emitting(string_lexeme(s))
    } else if c.whitespace {
        Ok((None, 1))
    } else if starts_word(c) {
        emitting(Ok(word_lexeme(s)))
    } else {
        Err(LexError::UnexpectedChar(c.ch, offset as usize))
    }
}

/// `front` followed by the tokens of `rest`, if there are any.
pub open spec fn emit(front: Seq<SpecToken>, rest: Result<Seq<SpecToken>, LexError>) -> Result<
    Seq<SpecToken>,
    LexError,
> {
    match rest {
        Ok(tokens) => Ok(front + tokens),
        Err(e) => Err(e),
    }
}

/// An optional token as a run of tokens.
pub open spec fn optional(token: Option<SpecToken>) -> Seq<SpecToken> {
    match token {
        Some(t) => seq![t],
        None => Seq::empty(),
    }
}

/// Every lexeme takes at least one character and stays within the source.
pub proof fn lemma_lexeme_len(s: Seq<SourceChar>, offset: nat)
    requires
        s.len() > 0,
    ensures
        lexeme(s, offset) matches Ok((_, len)) ==> 1 <= len <= s.len(),
{
    let c = s[0];
    if c.ch == '\n' || symbol(s) is Some {
    } else if is_digit(c.ch) {
        let whole = run_len(CharSet::Digit, s);
        lemma_run_len(CharSet::Digit, s);
        if whole < s.len() {
            lemma_run_len(CharSet::Digit, s.skip(whole + 1 as int));
        }
    } else if c.ch == '"' {
        lemma_string_body_len(s.skip(1));
    } else if c.whitespace {
    } else if starts_word(c) {
        lemma_run_len(CharSet::Word, s.skip(1));
    }
}

/// The tokens of the rest `s` of a source, which stands `offset` characters into it,
/// while the blocks of `stack` are open; `line_start` tells whether `s` begins a line.
pub open spec fn scan_from(s: Seq<SourceChar>, offset: nat, stack: Seq<nat>, line_start: bool) -> Result<
    Seq<SpecToken>,
    LexError,
>
    decreases s.len(), (if line_start {
        1nat
    } else {
        0nat
    }),
{
    if line_start {
        match indent_change(stack, indent_width(s)) {
            Some((open, marks)) => {
                let blanks = leading_blanks(s);
                proof {
                    lemma_run_len(CharSet::Blank, s);
                }
                emit(marks, scan_from(s.skip(blanks as int), offset + blanks, open, false))
            },
            None => Err(LexError::InconsistentIndent),
        }
    } else if s.len() == 0 {
        Ok(closing(stack).push(SpecToken::EOF))
    } else {
        match lexeme(s, offset) {
            Ok((token, len)) => {
                proof {
                    lemma_lexeme_len(s, offset);
                }
                emit(
                    optional(token),
                    scan_from(
                        s.skip(len as int),
                        offset + len,
                        stack,
                        token == Some(SpecToken::Newl),
                    ),
                )
            },
            Err(e) => Err(e),
        }
    }
}

/// The token stream of `source`, or the error on which scanning stops.
pub open spec fn tokens_of(source: Seq<SourceChar>) -> Result<Seq<SpecToken>, LexError> {
    scan_from(source, 0, seq![0nat], true)
}

/// The value of what the scanner returns.
pub open spec fn scanned(r: Result<Vec<Token>, LexError>) -> Result<Seq<SpecToken>, LexError> {
    match r {
        Ok(tokens) => Ok(token_views(tokens@)),
        Err(e) => Err(e),
    }
}

/// Putting tokens in front twice is putting both runs in front at once.
pub proof fn lemma_emit_emit(
    first: Seq<SpecToken>,
    second: Seq<SpecToken>,
    rest: Result<Seq<SpecToken>, LexError>,
)
    ensures
        emit(first, emit(second, rest)) == emit(first + second, rest),
{
    match rest {
        Ok(tokens) => {
            assert(first + (second + tokens) =~= (first + second) + tokens);
        },
        Err(_) => {},
    }
}

/// Takes the operator or punctuation mark at `start`, if there is one.
pub fn scan_symbol(source: &[SourceChar], start: usize) -> (r: Option<(Token, usize)>)
    requires
        start < source.len(),
    ensures
        match r {
            Some((token, end)) => symbol(source@.skip(start as int)) == Some(
                (token@, (end - start) as nat),
            ) && start < end <= source.len(),
            None => symbol(source@.skip(start as int)) is None,
        },
{
    let c = source[start].ch;
    let next: Option<char> = if start + 1 < source.len() {
        Some(source[start + 1].ch)
    } else {
        None
    };
    proof {
        let s = source@.skip(start as int);
        assert(s[0] == source@[start as int]);
        if start + 1 < source.len() {
            assert(s[1] == source@[start + 1]);
        }
    }
    let one = start + 1;
    if c == '+' {
        Some((Token::Plus, one))
    } else if c == '-' {
        if next == Some('>') {
            Some((Token::RArrow, start + 2))
        } else {
            Some((Token::Minus, one))
        }
    } else if c == '*' {
        Some((Token::Multiply, one))
    } else if c == '/' {
        Some((Token::Divide, one))
    } else if c == '%' {
        Some((Token::Modulo, one))
    } else if c == '(' {
        Some((Token::LParen, one))
    } else if c == ')' {
        Some((Token::RParen, one))
    } else if c == '{' {
        Some((Token::LBrace, one))
    } else if c == '}' {
        Some((Token::RBrace, one))
    } else if c == '[' {
        Some((Token::LSquareBracket, one))
    } else if c == ']' {
        Some((Token::RSquareBracket, one))
    } else if c == ',' {
        Some((Token::Comma, one))
    } else if c == ';' {
        Some((Token::Semicolon, one))
    } else if c == '.' {
        Some((Token::Dot, one))
    } else if c == '<' {
        if next == Some('-') {
            Some((Token::LArrow, start + 2))
        } else {
            Some((Token::LessThan, one))
        }
    } else if c == '>' {
        Some((Token::GreaterThan, one))
    } else if c == '=' {
        if next == Some('=') {
            Some((Token::ComparativeEqual, start + 2))
        } else {
            Some((Token::Equal, one))
        }
    } else if c == '!' {
        if next == Some('=') {
            Some((Token::NotEqual, start + 2))
        } else {
            Some((Token::Not, one))
        }
    } else if c == '&' {
        Some((Token::And, one))
    } else if c == '|' {
        Some((Token::Or, one))
    } else {
        None
    }
}

/// An executable lexeme `r` that began at `start` is the lexeme `expected`.
pub open spec fn step_is(
    r: Result<(Option<Token>, usize), LexError>,
    start: usize,
    expected: Result<(Option<SpecToken>, nat), LexError>,
) -> bool {
    match r {
        Ok((token, end)) => start <= end && expected == Ok::<(Option<SpecToken>, nat), LexError>(
            (
                match token {
                    Some(t) => Some(t@),
                    None => None,
                },
                (end - start) as nat,
            ),
        ),
        Err(e) => expected == Err::<(Option<SpecToken>, nat), LexError>(e),
    }
}

/// Takes the lexeme at `start`.
pub fn scan_lexeme(source: &[SourceChar], start: usize) -> (r: Result<
    (Option<Token>, usize),
    LexError,
>)
    requires
        start < source.len(),
    ensures
        step_is(r, start, lexeme(source@.skip(start as int), start as nat)),
        r matches Ok((_, end)) ==> start < end <= source.len(),
{
    let c = source[start];
    proof {
        assert(source@.skip(start as int)[0] == source@[start as int]);
        lemma_lexeme_len(source@.skip(start as int), start as nat);
    }
    if c.ch == '\n' {
        return Ok((Some(Token::Newl), start + 1));
    }
    if let Some((token, end)) = scan_symbol(source, start) {
        return Ok((Some(token), end));
    }
    if '0' <= c.ch && c.ch <= '9' {
        match scan_number(source, start) {
            Ok((token, end)) => Ok((Some(token), end)),
            Err(e) => Err(e),
        }
    } else if c.ch == '"' {
        match scan_string(source, start) {
            Ok((token, end)) => Ok((Some(token), end)),
            Err(e) => Err(e),
        }
    } else if c.whitespace {
        Ok((None, start + 1))
    } else if c.alphabetic || c.ch == '_' {
        let (token, end) = scan_word(source, start);
        Ok((Some(token), end))
    } else {
        Err(LexError::UnexpectedChar(c.ch, start))
    }
}

/// Scans a source whose characters come with their properties.
///
/// Returns the tokens that [`tokens_of`] defines, or the error on which it stops.
/// The tokens form a token stream: the end-of-stream marker ends them, and their
/// block markers pair up.
pub fn lex_chars(source: &[SourceChar]) -> (r: Result<Vec<Token>, LexError>)
    ensures
        scanned(r) == tokens_of(source@),
        r matches Ok(tokens) ==> is_stream(token_views(tokens@)),
{
    proof {
        law_tokens_form_a_stream(source@);
    }
    let mut tokens: Vec<Token> = Vec::new();
    let mut stack: Vec<u128> = Vec::new();
    stack.push(0);
    let mut pos: usize = 0;
    let mut line_start = true;
    proof {
        assert(levels(stack@) =~= seq![0nat]);
        assert(source@.skip(0) =~= source@);
        assert(token_views(tokens@) =~= Seq::empty());
        match tokens_of(source@) {
            Ok(ts) => {
                assert(Seq::<SpecToken>::empty() + ts =~= ts);
            },
            Err(_) => {},
        }
    }
    loop
        invariant
            pos <= source.len(),
            stack_ok(levels(stack@)),
            tokens_of(source@) matches Ok(ts) ==> is_stream(ts),
            tokens_of(source@) == emit(
                token_views(tokens@),
                scan_from(source@.skip(pos as int), pos as nat, levels(stack@), line_start),
            ),
        decreases source.len() - pos, (if line_start {
            1nat
        } else {
            0nat
        }),
    {
        let ghost rest = source@.skip(pos as int);
        let ghost emitted = token_views(tokens@);
        let ghost open = levels(stack@);
        if line_start {
            let (end, width) = measure_indent(source, pos);
            proof {
                lemma_indent_change_ok(open, width as nat);
                assert(rest.skip(end - pos) =~= source@.skip(end as int));
                match indent_change(open, width as nat) {
                    Some((next, marks)) => {
                        lemma_emit_emit(
                            emitted,
                            marks,
                            scan_from(source@.skip(end as int), end as nat, next, false),
                        );
                    },
                    None => {},
                }
            }
            if !apply_indent(&mut stack, &mut tokens, width) {
                return Err(LexError::InconsistentIndent);
            }
            pos = end;
            line_start = false;
        } else if pos >= source.len() {
            close_blocks(&stack, &mut tokens);
            proof {
                lemma_token_views_push(tokens@, Token::EOF);
                assert((emitted + closing(open)).push(SpecToken::EOF) =~= emitted + closing(
                    open,
                ).push(SpecToken::EOF));
            }
            tokens.push(Token::EOF);
            return Ok(tokens);
        } else {
            match scan_lexeme(source, pos) {
                Ok((token, end)) => {
                    proof {
                        assert(rest.skip(end - pos) =~= source@.skip(end as int));
                    }
                    match token {
                        Some(t) => {
                            proof {
                                lemma_token_views_push(tokens@, t);
                                lemma_emit_emit(
                                    emitted,
                                    seq![t@],
                                    scan_from(
                                        source@.skip(end as int),
                                        end as nat,
                                        open,
                                        t@ == SpecToken::Newl,
                                    ),
                                );
                                assert(emitted.push(t@) =~= emitted + seq![t@]);
                            }
                            line_start = matches!(t, Token::Newl);
                            tokens.push(t);
                        },
                        None => {
                            proof {
                                lemma_emit_emit(
                                    emitted,
                                    Seq::empty(),
                                    scan_from(source@.skip(end as int), end as nat, open, false),
                                );
                                assert(emitted + Seq::<SpecToken>::empty() =~= emitted);
                            }
                            line_start = false;
                        },
                    }
                    pos = end;
                },
                Err(e) => {
                    return Err(e);
                },
            }
        }
    }
}

/// Scans `input`.
///
/// The properties of each character are looked up first ([`classify_str`]); the
/// result is then the token stream of the classified text.
pub fn lex(input: &str) -> (r: Result<Vec<Token>, LexError>)
    ensures
        scanned(r) == tokens_of(classified_text(input@)),
        r matches Ok(tokens) ==> is_stream(token_views(tokens@)),
{
    let source = classify_str(input);
    lex_chars(source.as_slice())
}

} // verus!
