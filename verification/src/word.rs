//! Words: reserved words and identifiers.
//!
//! A word begins with an alphabetic character or `_` and goes on for as long as
//! alphanumeric characters and `_` follow. A word that is spelled like a reserved
//! word is that reserved word; every other word is an identifier.

use vstd::prelude::*;
use crate::run::{run_len, scan_run, CharSet};
use crate::source::{plain_text, text_between, SourceChar};
use crate::token::{SpecToken, Token};

verus! {

/// The reserved word that `name` spells, if it spells one.
pub open spec fn keyword(name: Seq<char>) -> Option<SpecToken> {
    if name == "break"@ {
        Some(SpecToken::Break)
    } else if name == "do"@ {
        Some(SpecToken::Do)
    } else if name == "if"@ {
        Some(SpecToken::If)
    } else if name == "elif"@ {
        Some(SpecToken::ElseIf)
    } else if name == "goto"@ {
        Some(SpecToken::Goto)
    } else if name == "in"@ {
        Some(SpecToken::In)
    } else if name == "true"@ {
        Some(SpecToken::True)
    } else if name == "false"@ {
        Some(SpecToken::False)
    } else if name == "nil"@ {
        Some(SpecToken::Nil)
    } else if name == "for"@ {
        Some(SpecToken::For)
    } else if name == "pkg"@ {
        Some(SpecToken::Package)
    } else {
        None
    }
}

/// The token for the word `name`.
pub open spec fn word_token(name: Seq<char>) -> SpecToken {
    match keyword(name) {
        Some(token) => token,
        None => SpecToken::Identifier(name),
    }
}

/// Whether a word may begin with `c`.
pub open spec fn starts_word(c: SourceChar) -> bool {
    c.alphabetic || c.ch == '_'
}

/// What the scanner makes of the word that begins `s`: the token and the number of
/// characters it spans.
pub open spec fn word_lexeme(s: Seq<SourceChar>) -> (SpecToken, nat) {
    let len = 1 + run_len(CharSet::Word, s.skip(1));
    (word_token(plain_text(s.take(len as int))), len)
}

/// Tells whether the characters from `from` up to `to` spell `word`.
pub fn spells(source: &[SourceChar], from: usize, to: usize, word: &str) -> (b: bool)
    requires
        from <= to <= source.len(),
    ensures
        b == (plain_text(source@.subrange(from as int, to as int)) == word@),
{
    let ghost name = plain_text(source@.subrange(from as int, to as int));
    let len = word.unicode_len();
    if to - from != len {
        return false;
    }
    let mut i: usize = 0;
    while i < len
        invariant
            from <= to <= source.len(),
            len == to - from,
            len == word@.len(),
            i <= len,
            name == plain_text(source@.subrange(from as int, to as int)),
            forall|j: int| 0 <= j < i ==> name[j] == word@[j],
        decreases len - i,
    {
        if source[from + i].ch != word.get_char(i) {
            assert(name[i as int] != word@[i as int]);
            return false;
        }
        i += 1;
    }
    assert(name =~= word@);
    true
}

/// The value of an optional token.
pub open spec fn optional_view(token: Option<Token>) -> Option<SpecToken> {
    match token {
        Some(t) => Some(t@),
        None => None,
    }
}

/// Looks the characters from `from` up to `to` up among the reserved words.
pub fn keyword_between(source: &[SourceChar], from: usize, to: usize) -> (token: Option<Token>)
    requires
        from <= to <= source.len(),
    ensures
        optional_view(token) == keyword(plain_text(source@.subrange(from as int, to as int))),
{
    if spells(source, from, to, "break") {
        Some(Token::Break)
    } else if spells(source, from, to, "do") {
        Some(Token::Do)
    } else if spells(source, from, to, "if") {
        Some(Token::If)
    } else if spells(source, from, to, "elif") {
        Some(Token::ElseIf)
    } else if spells(source, from, to, "goto") {
        Some(Token::Goto)
    } else if spells(source, from, to, "in") {
        Some(Token::In)
    } else if spells(source, from, to, "true") {
        Some(Token::True)
    } else if spells(source, from, to, "false") {
        Some(Token::False)
    } else if spells(source, from, to, "nil") {
        Some(Token::Nil)
    } else if spells(source, from, to, "for") {
        Some(Token::For)
    } else if spells(source, from, to, "pkg") {
        Some(Token::Package)
    } else {
        None
    }
}

/// Scans the word that begins at `start`.
pub fn scan_word(source: &[SourceChar], start: usize) -> (r: (Token, usize))
    requires
        start < source.len(),
    ensures
        r.0@ == word_lexeme(source@.skip(start as int)).0,
        r.1 == start + word_lexeme(source@.skip(start as int)).1,
        start < r.1 <= source.len(),
{
    let end = scan_run(CharSet::Word, source, start + 1);
    proof {
        let s = source@.skip(start as int);
        assert(s.skip(1) =~= source@.skip(start + 1));
        assert(s.take(end - start) =~= source@.subrange(start as int, end as int));
    }
    match keyword_between(source, start, end) {
        Some(token) => (token, end),
        None => (Token::Identifier(text_between(source, start, end)), end),
    }
}

} // verus!
