//! What holds of every source that is scanned.

use vstd::prelude::*;
use crate::indent::{
    closing,
    columns,
    dedents,
    indent_change,
    indent_width,
    leading_blanks,
    lemma_indent_change_ok,
    lemma_levels_above_bound,
    levels_above,
    stack_ok,
};
use crate::lex::{emit, lexeme, optional, scan_from, symbol, tokens_of};
use crate::literal::{all_digits, decimal_value, number_lexeme};
use crate::run::{is_digit, lemma_run_len, lemma_run_len_is, run_len, CharSet};
use crate::source::{
    classified_text,
    lemma_plain_text_classified,
    plain_text,
    SourceChar,
};
use crate::stream::{
    all_well_formed,
    closed,
    ends_once,
    is_float_text,
    is_stream,
    lemma_count_dedents,
    lemma_count_one,
    lemma_stream_concat,
    nested_within,
    opened,
    well_formed,
};
use crate::token::{LexError, SpecToken};
use crate::word::starts_word;

verus! {

/// No lexeme is a block marker or the end-of-stream marker.
pub proof fn lemma_lexeme_is_no_marker(s: Seq<SourceChar>, offset: nat)
    requires
        s.len() > 0,
    ensures
        lexeme(s, offset) matches Ok((Some(token), _)) ==> token != SpecToken::Indent && token
            != SpecToken::Dedent && token != SpecToken::EOF,
{
}

/// What is scanned from any state ends once with the end-of-stream marker and
/// closes, beyond the blocks it opens itself, exactly the blocks that were open.
pub proof fn lemma_scan_from_stream(
    s: Seq<SourceChar>,
    offset: nat,
    stack: Seq<nat>,
    line_start: bool,
)
    requires
        stack_ok(stack),
    ensures
        scan_from(s, offset, stack, line_start) matches Ok(ts) ==> {
            &&& ends_once(ts)
            &&& nested_within(ts, (stack.len() - 1) as nat)
            &&& closed(ts) == opened(ts) + stack.len() - 1
        },
    decreases s.len(), (if line_start {
        1nat
    } else {
        0nat
    }),
{
    let open = (stack.len() - 1) as nat;
    if line_start {
        match indent_change(stack, indent_width(s)) {
            Some((next, marks)) => {
                let blanks = leading_blanks(s);
                lemma_run_len(CharSet::Blank, s);
                lemma_indent_change_ok(stack, indent_width(s));
                lemma_levels_above_bound(stack, indent_width(s));
                let rest = scan_from(s.skip(blanks as int), offset + blanks, next, false);
                lemma_scan_from_stream(s.skip(blanks as int), offset + blanks, next, false);
                if rest is Ok {
                    if indent_width(s) > stack.last() {
                        lemma_count_one(SpecToken::Indent, SpecToken::Indent);
                        lemma_count_one(SpecToken::Indent, SpecToken::Dedent);
                        assert forall|k: int| 0 <= k <= marks.len() implies closed(
                            #[trigger] marks.take(k),
                        ) <= opened(marks.take(k)) + open by {
                            if k == 0 {
                                assert(marks.take(k) =~= Seq::<SpecToken>::empty());
                            } else {
                                assert(marks.take(k) =~= marks);
                            }
                        }
                    } else {
                        let n = levels_above(stack, indent_width(s));
                        lemma_count_dedents(n);
                        assert forall|k: int| 0 <= k <= marks.len() implies closed(
                            #[trigger] marks.take(k),
                        ) <= opened(marks.take(k)) + open by {
                            lemma_count_dedents(k as nat);
                        }
                    }
                    lemma_stream_concat(marks, rest.unwrap(), open, (next.len() - 1) as nat);
                }
            },
            None => {},
        }
    } else if s.len() == 0 {
        let ts = closing(stack).push(SpecToken::EOF);
        lemma_count_dedents(open);
        lemma_count_one(SpecToken::EOF, SpecToken::Indent);
        lemma_count_one(SpecToken::EOF, SpecToken::Dedent);
        let last = seq![SpecToken::EOF];
        assert(ts =~= closing(stack) + last);
        assert(nested_within(last, 0)) by {
            assert forall|k: int| 0 <= k <= last.len() implies closed(#[trigger] last.take(k))
                <= opened(last.take(k)) by {
                if k == 0 {
                    assert(last.take(k) =~= Seq::<SpecToken>::empty());
                } else {
                    assert(last.take(k) =~= last);
                }
            }
        }
        assert(nested_within(closing(stack), open)) by {
            assert forall|k: int| 0 <= k <= closing(stack).len() implies closed(
                #[trigger] closing(stack).take(k),
            ) <= opened(closing(stack).take(k)) + open by {
                lemma_count_dedents(k as nat);
            }
        }
        lemma_stream_concat(closing(stack), last, open, 0);
    } else {
        match lexeme(s, offset) {
            Ok((token, len)) => {
                crate::lex::lemma_lexeme_len(s, offset);
                lemma_lexeme_is_no_marker(s, offset);
                let at_line_start = token == Some(SpecToken::Newl);
                let rest = scan_from(s.skip(len as int), offset + len, stack, at_line_start);
                lemma_scan_from_stream(s.skip(len as int), offset + len, stack, at_line_start);
                if rest is Ok {
                    let front = optional(token);
                    match token {
                        Some(t) => {
                            lemma_count_one(t, SpecToken::Indent);
                            lemma_count_one(t, SpecToken::Dedent);
                            assert forall|k: int| 0 <= k <= front.len() implies closed(
                                #[trigger] front.take(k),
                            ) <= opened(front.take(k)) + open by {
                                if k == 0 {
                                    assert(front.take(k) =~= Seq::<SpecToken>::empty());
                                } else {
                                    assert(front.take(k) =~= front);
                                }
                            }
                        },
                        None => {
                            assert forall|k: int| 0 <= k <= front.len() implies closed(
                                #[trigger] front.take(k),
                            ) <= opened(front.take(k)) + open by {
                                assert(front.take(k) =~= Seq::<SpecToken>::empty());
                            }
                        },
                    }
                    lemma_stream_concat(front, rest.unwrap(), open, open);
                }
            },
            Err(_) => {},
        }
    }
}

/// The token of a lexeme is well-formed.
pub proof fn lemma_lexeme_is_well_formed(s: Seq<SourceChar>, offset: nat)
    requires
        s.len() > 0,
    ensures
        lexeme(s, offset) matches Ok((Some(token), _)) ==> well_formed(token),
{
    let c = s[0];
    if c.ch == '\n' || symbol(s) is Some {
    } else if is_digit(c.ch) {
        let whole = run_len(CharSet::Digit, s);
        lemma_run_len(CharSet::Digit, s);
        if whole < s.len() && s[whole as int].ch == '.' {
            let rest = s.skip(whole + 1 as int);
            lemma_run_len(CharSet::Digit, rest);
            let len = whole + 1 + run_len(CharSet::Digit, rest);
            let text = plain_text(s.take(len as int));
            if number_lexeme(s) is Ok {
                assert(text.take(whole as int) =~= plain_text(s.take(whole as int)));
                assert forall|i: int| 0 <= i < whole implies is_digit(
                    #[trigger] text.take(whole as int)[i],
                ) by {
                    assert(CharSet::Digit.contains(s[i]));
                }
                let fraction = text.skip(whole + 1 as int);
                assert forall|i: int| 0 <= i < fraction.len() implies is_digit(
                    #[trigger] fraction[i],
                ) by {
                    assert(CharSet::Digit.contains(rest[i]));
                }
                assert(is_float_text(text));
            }
        }
    } else if c.ch == '"' {
    } else if c.whitespace {
    } else if starts_word(c) {
        lemma_run_len(CharSet::Word, s.skip(1));
    }
}

/// What is scanned from any state holds well-formed tokens only.
pub proof fn lemma_scan_from_well_formed(
    s: Seq<SourceChar>,
    offset: nat,
    stack: Seq<nat>,
    line_start: bool,
)
    ensures
        scan_from(s, offset, stack, line_start) matches Ok(ts) ==> all_well_formed(ts),
    decreases s.len(), (if line_start {
        1nat
    } else {
        0nat
    }),
{
    if line_start {
        match indent_change(stack, indent_width(s)) {
            Some((next, marks)) => {
                let blanks = leading_blanks(s);
                lemma_run_len(CharSet::Blank, s);
                lemma_scan_from_well_formed(s.skip(blanks as int), offset + blanks, next, false);
            },
            None => {},
        }
    } else if s.len() > 0 {
        match lexeme(s, offset) {
            Ok((token, len)) => {
                crate::lex::lemma_lexeme_len(s, offset);
                lemma_lexeme_is_well_formed(s, offset);
                lemma_scan_from_well_formed(
                    s.skip(len as int),
                    offset + len,
                    stack,
                    token == Some(SpecToken::Newl),
                );
            },
            Err(_) => {},
        }
    }
}

/// Whatever the source, the tokens that the scanner makes of it form a token stream:
/// the end-of-stream marker ends it, as many blocks are closed as are opened, none
/// before it was opened, and every token is well-formed.
pub proof fn law_tokens_form_a_stream(source: Seq<SourceChar>)
    ensures
        tokens_of(source) matches Ok(ts) ==> is_stream(ts),
{
    lemma_scan_from_stream(source, 0, seq![0nat], true);
    lemma_scan_from_well_formed(source, 0, seq![0nat], true);
}

/// A source made of decimal digits alone, whatever their other properties, scans as
/// the one integer that the digits denote, followed at once by the end-of-stream
/// marker; when the integer does not fit, scanning fails with `NumberOutOfRange`.
pub proof fn law_digits_scan_as_one_number(source: Seq<SourceChar>)
    requires
        source.len() > 0,
        all_digits(plain_text(source)),
    ensures
        decimal_value(plain_text(source)) <= i64::MAX ==> tokens_of(source) == Ok::<
            Seq<SpecToken>,
            LexError,
        >(seq![SpecToken::Number(decimal_value(plain_text(source)) as i64), SpecToken::EOF]),
        decimal_value(plain_text(source)) > i64::MAX ==> tokens_of(source) == Err::<
            Seq<SpecToken>,
            LexError,
        >(LexError::NumberOutOfRange),
{
    let n = source.len();
    let stack = seq![0nat];
    let value = decimal_value(plain_text(source));
    assert forall|i: int| 0 <= i < n implies CharSet::Digit.contains(#[trigger] source[i]) by {
        assert(is_digit(plain_text(source)[i]));
    }
    assert(is_digit(source[0].ch));
    // The first line is not indented.
    assert(leading_blanks(source) == 0);
    assert(source.take(0) =~= Seq::<SourceChar>::empty());
    assert(indent_width(source) == 0);
    assert(levels_above(stack, 0) == 0);
    assert(stack.take(1) =~= stack);
    assert(indent_change(stack, 0) == Some((stack, dedents(0))));
    assert(source.skip(0) =~= source);
    // The digits are one number that reaches to the end of the source.
    lemma_run_len_is(CharSet::Digit, source, n);
    assert(source.take(n as int) =~= source);
    assert(symbol(source) is None);
    let end = scan_from(source.skip(n as int), n, stack, false);
    assert(end == Ok::<Seq<SpecToken>, LexError>(closing(stack).push(SpecToken::EOF)));
    assert(closing(stack).push(SpecToken::EOF) =~= seq![SpecToken::EOF]);
    if value <= i64::MAX {
        let number = SpecToken::Number(value as i64);
        assert(lexeme(source, 0) == Ok::<(Option<SpecToken>, nat), LexError>((Some(number), n)));
        assert(scan_from(source, 0, stack, false) == emit(seq![number], end));
        assert(dedents(0) + (seq![number] + seq![SpecToken::EOF]) =~= seq![
            number,
            SpecToken::EOF,
        ]);
    } else {
        assert(lexeme(source, 0) == Err::<(Option<SpecToken>, nat), LexError>(
            LexError::NumberOutOfRange,
        ));
        assert(scan_from(source, 0, stack, false) == Err::<Seq<SpecToken>, LexError>(
            LexError::NumberOutOfRange,
        ));
    }
}

/// A text made of decimal digits alone scans as the one integer that it denotes,
/// followed at once by the end-of-stream marker; when the integer does not fit,
/// scanning fails with `NumberOutOfRange`.
pub proof fn law_digit_text_scans_as_one_number(text: Seq<char>)
    requires
        text.len() > 0,
        all_digits(text),
    ensures
        decimal_value(text) <= i64::MAX ==> tokens_of(classified_text(text)) == Ok::<
            Seq<SpecToken>,
            LexError,
        >(seq![SpecToken::Number(decimal_value(text) as i64), SpecToken::EOF]),
        decimal_value(text) > i64::MAX ==> tokens_of(classified_text(text)) == Err::<
            Seq<SpecToken>,
            LexError,
        >(LexError::NumberOutOfRange),
{
    lemma_plain_text_classified(text);
    law_digits_scan_as_one_number(classified_text(text));
}

/// The empty source scans as the end-of-stream marker alone.
pub proof fn law_empty_source()
    ensures
        tokens_of(Seq::empty()) == Ok::<Seq<SpecToken>, LexError>(seq![SpecToken::EOF]),
{
    let source = Seq::<SourceChar>::empty();
    let stack = seq![0nat];
    assert(leading_blanks(source) == 0);
    assert(source.take(0) =~= source);
    assert(indent_width(source) == 0);
    assert(levels_above(stack, 0) == 0);
    assert(stack.take(1) =~= stack);
    assert(indent_change(stack, 0) == Some((stack, dedents(0))));
    assert(source.skip(0) =~= source);
    assert(scan_from(source, 0, stack, false) == Ok::<Seq<SpecToken>, LexError>(
        closing(stack).push(SpecToken::EOF),
    ));
    assert(dedents(0) + closing(stack).push(SpecToken::EOF) =~= seq![SpecToken::EOF]);
}

/// Every character of `blanks` is a space or a tab.
pub open spec fn all_blank(blanks: Seq<SourceChar>) -> bool {
    forall|i: int| 0 <= i < blanks.len() ==> CharSet::Blank.contains(#[trigger] blanks[i])
}

/// The width of two runs of blanks on end is the sum of their widths.
pub proof fn lemma_columns_concat(a: Seq<SourceChar>, b: Seq<SourceChar>)
    ensures
        columns(a + b) == columns(a) + columns(b),
    decreases b.len(),
{
    if b.len() == 0 {
        assert(a + b =~= a);
    } else {
        assert((a + b).drop_last() =~= a + b.drop_last());
        lemma_columns_concat(a, b.drop_last());
    }
}

/// Blanks in front of a line add to its leading blanks and to its indentation, and
/// leave what follows the indentation as it was.
pub proof fn lemma_blanks_in_front(blanks: Seq<SourceChar>, line: Seq<SourceChar>)
    requires
        all_blank(blanks),
    ensures
        leading_blanks(blanks + line) == blanks.len() + leading_blanks(line),
        indent_width(blanks + line) == columns(blanks) + indent_width(line),
        (blanks + line).skip(leading_blanks(blanks + line) as int) == line.skip(
            leading_blanks(line) as int,
        ),
{
    let all = blanks + line;
    let n = leading_blanks(line) as int;
    let m = blanks.len() + n;
    lemma_run_len(CharSet::Blank, line);
    assert forall|i: int| 0 <= i < m implies CharSet::Blank.contains(#[trigger] all[i]) by {
        if i >= blanks.len() {
            assert(all[i] == line[i - blanks.len()]);
        }
    }
    if m < all.len() {
        assert(all[m] == line[n]);
    }
    lemma_run_len_is(CharSet::Blank, all, m as nat);
    assert(all.take(m) =~= blanks + line.take(n));
    lemma_columns_concat(blanks, line.take(n));
    assert(all.skip(m) =~= line.skip(n));
}

/// Wherever a line starts, only the width of its indentation counts: two runs of
/// blanks that take equally many columns lead to the same tokens, whatever follows
/// them and whatever blocks are open. (The offsets are set so that what follows
/// stands equally far into the source either way.)
pub proof fn law_indentation_counts_by_width(
    a: Seq<SourceChar>,
    b: Seq<SourceChar>,
    line: Seq<SourceChar>,
    offset_a: nat,
    offset_b: nat,
    stack: Seq<nat>,
)
    requires
        all_blank(a),
        all_blank(b),
        columns(a) == columns(b),
        offset_a + a.len() == offset_b + b.len(),
    ensures
        scan_from(a + line, offset_a, stack, true) == scan_from(b + line, offset_b, stack, true),
{
    lemma_blanks_in_front(a, line);
    lemma_blanks_in_front(b, line);
}

/// The result of scanning without the offset that an `UnexpectedChar` carries.
pub open spec fn forget_offset(r: Result<Seq<SpecToken>, LexError>) -> Result<
    Seq<SpecToken>,
    LexError,
> {
    match r {
        Err(LexError::UnexpectedChar(c, _)) => Err(LexError::UnexpectedChar(c, 0)),
        _ => r,
    }
}

/// How far into the source scanning starts shows in the offset of an
/// `UnexpectedChar` and in nothing else.
pub proof fn lemma_offset_shows_in_error_only(
    s: Seq<SourceChar>,
    offset_a: nat,
    offset_b: nat,
    stack: Seq<nat>,
    line_start: bool,
)
    ensures
        forget_offset(scan_from(s, offset_a, stack, line_start)) == forget_offset(
            scan_from(s, offset_b, stack, line_start),
        ),
    decreases s.len(), (if line_start {
        1nat
    } else {
        0nat
    }),
{
    if line_start {
        match indent_change(stack, indent_width(s)) {
            Some((next, marks)) => {
                let blanks = leading_blanks(s);
                lemma_run_len(CharSet::Blank, s);
                lemma_offset_shows_in_error_only(
                    s.skip(blanks as int),
                    offset_a + blanks,
                    offset_b + blanks,
                    next,
                    false,
                );
            },
            None => {},
        }
    } else if s.len() > 0 {
        match lexeme(s, offset_a) {
            Ok((token, len)) => {
                crate::lex::lemma_lexeme_len(s, offset_a);
                assert(lexeme(s, offset_b) == lexeme(s, offset_a));
                lemma_offset_shows_in_error_only(
                    s.skip(len as int),
                    offset_a + len,
                    offset_b + len,
                    stack,
                    token == Some(SpecToken::Newl),
                );
            },
            Err(_) => {},
        }
    }
}

/// An unexpected character that scanning from `pos` on reports stands in the source
/// at the offset it is reported with, at or after `pos`.
pub proof fn lemma_unexpected_char_is_in_source(
    source: Seq<SourceChar>,
    pos: nat,
    stack: Seq<nat>,
    line_start: bool,
)
    requires
        pos <= source.len() <= usize::MAX,
    ensures
        scan_from(source.skip(pos as int), pos, stack, line_start) matches Err(
            LexError::UnexpectedChar(c, offset),
        ) ==> pos <= offset < source.len() && source[offset as int].ch == c,
    decreases source.len() - pos, (if line_start {
        1nat
    } else {
        0nat
    }),
{
    let s = source.skip(pos as int);
    if line_start {
        match indent_change(stack, indent_width(s)) {
            Some((next, marks)) => {
                let blanks = leading_blanks(s);
                lemma_run_len(CharSet::Blank, s);
                assert(s.skip(blanks as int) =~= source.skip(pos + blanks as int));
                lemma_unexpected_char_is_in_source(source, pos + blanks, next, false);
            },
            None => {},
        }
    } else if s.len() > 0 {
        match lexeme(s, pos) {
            Ok((token, len)) => {
                crate::lex::lemma_lexeme_len(s, pos);
                assert(s.skip(len as int) =~= source.skip(pos + len as int));
                lemma_unexpected_char_is_in_source(
                    source,
                    pos + len,
                    stack,
                    token == Some(SpecToken::Newl),
                );
            },
            Err(_) => {
                assert(s[0] == source[pos as int]);
            },
        }
    }
}

/// An unexpected character is reported with the offset at which it stands in the
/// source.
pub proof fn law_unexpected_char_is_in_source(source: Seq<SourceChar>)
    requires
        source.len() <= usize::MAX,
    ensures
        tokens_of(source) matches Err(LexError::UnexpectedChar(c, offset)) ==> offset
            < source.len() && source[offset as int].ch == c,
{
    assert(source.skip(0) =~= source);
    lemma_unexpected_char_is_in_source(source, 0, seq![0nat], true);
}

} // verus!
