//! Where the scanner stands at the start of a line, and why what stands in a line
//! cannot change what was scanned before it.
//!
//! The scanner looks ahead by one character at most, so a lexeme that ends before a
//! given place is the same whatever follows that place. With
//! [`crate::lex_laws::law_indentation_counts_by_width`] this makes the indentation
//! of any line of a source exchangeable for another of the same width.

use vstd::prelude::*;
use crate::indent::{columns, indent_change, indent_width, leading_blanks};
use crate::lex::{emit, lemma_emit_emit, lemma_lexeme_len, lexeme, optional, scan_from, tokens_of};
use crate::lex_laws::{
    all_blank,
    forget_offset,
    law_indentation_counts_by_width,
    lemma_offset_shows_in_error_only,
};
use crate::literal::{lemma_string_body_len, string_body};
use crate::run::{is_digit, lemma_run_len, lemma_run_len_is, run_len, CharSet};
use crate::source::{classified_text, SourceChar};
use crate::token::{LexError, SpecToken};
use crate::word::starts_word;

verus! {

/// `front` put in front of the tokens of `rest`, if there are any.
pub open spec fn ahead(front: Seq<SpecToken>, rest: Option<(Seq<SpecToken>, Seq<nat>)>) -> Option<
    (Seq<SpecToken>, Seq<nat>),
> {
    match rest {
        Some((tokens, stack)) => Some((front + tokens, stack)),
        None => None,
    }
}

/// The tokens emitted and the blocks open at the moment when the scanner, set out as
/// in [`scan_from`], stands at the start of a line exactly `target` characters into
/// the source; `None` when it fails before or never stands there.
pub open spec fn line_start_at(
    s: Seq<SourceChar>,
    offset: nat,
    stack: Seq<nat>,
    line_start: bool,
    target: nat,
) -> Option<(Seq<SpecToken>, Seq<nat>)>
    decreases s.len(), (if line_start {
        1nat
    } else {
        0nat
    }),
{
    if offset >= target {
        if offset == target && line_start {
            Some((Seq::empty(), stack))
        } else {
            None
        }
    } else if line_start {
        match indent_change(stack, indent_width(s)) {
            Some((open, marks)) => {
                let blanks = leading_blanks(s);
                proof {
                    lemma_run_len(CharSet::Blank, s);
                }
                ahead(marks, line_start_at(s.skip(blanks as int), offset + blanks, open, false, target))
            },
            None => None,
        }
    } else if s.len() == 0 {
        None
    } else {
        match lexeme(s, offset) {
            Ok((token, len)) => {
                proof {
                    lemma_lexeme_len(s, offset);
                }
                ahead(
                    optional(token),
                    line_start_at(
                        s.skip(len as int),
                        offset + len,
                        stack,
                        token == Some(SpecToken::Newl),
                        target,
                    ),
                )
            },
            Err(_) => None,
        }
    }
}

/// Whether a line of `source` starts `target` characters into it.
pub open spec fn starts_line(source: Seq<SourceChar>, target: nat) -> bool {
    line_start_at(source, 0, seq![0nat], true, target) is Some
}

/// Scanning can be taken up again at the start of any line: what it gives in all is
/// what was emitted up to there, followed by what scanning from there gives.
pub proof fn lemma_resume_at_line_start(
    s: Seq<SourceChar>,
    offset: nat,
    stack: Seq<nat>,
    line_start: bool,
    target: nat,
)
    ensures
        line_start_at(s, offset, stack, line_start, target) matches Some((emitted, open)) ==> {
            &&& offset <= target <= offset + s.len()
            &&& scan_from(s, offset, stack, line_start) == emit(
                emitted,
                scan_from(s.skip(target - offset), target, open, true),
            )
        },
    decreases s.len(), (if line_start {
        1nat
    } else {
        0nat
    }),
{
    if offset >= target {
        if offset == target && line_start {
            assert(s.skip(0) =~= s);
            match scan_from(s, offset, stack, line_start) {
                Ok(ts) => {
                    assert(Seq::<SpecToken>::empty() + ts =~= ts);
                },
                Err(_) => {},
            }
        }
    } else if line_start {
        match indent_change(stack, indent_width(s)) {
            Some((open, marks)) => {
                let blanks = leading_blanks(s);
                lemma_run_len(CharSet::Blank, s);
                let rest = s.skip(blanks as int);
                lemma_resume_at_line_start(rest, offset + blanks, open, false, target);
                match line_start_at(rest, offset + blanks, open, false, target) {
                    Some((emitted, last)) => {
                        assert(rest.skip(target - offset - blanks) =~= s.skip(target - offset));
                        lemma_emit_emit(
                            marks,
                            emitted,
                            scan_from(s.skip(target - offset), target, last, true),
                        );
                    },
                    None => {},
                }
            },
            None => {},
        }
    } else if s.len() > 0 {
        match lexeme(s, offset) {
            Ok((token, len)) => {
                lemma_lexeme_len(s, offset);
                let rest = s.skip(len as int);
                let at_line_start = token == Some(SpecToken::Newl);
                lemma_resume_at_line_start(rest, offset + len, stack, at_line_start, target);
                match line_start_at(rest, offset + len, stack, at_line_start, target) {
                    Some((emitted, last)) => {
                        assert(rest.skip(target - offset - len) =~= s.skip(target - offset));
                        lemma_emit_emit(
                            optional(token),
                            emitted,
                            scan_from(s.skip(target - offset), target, last, true),
                        );
                    },
                    None => {},
                }
            },
            Err(_) => {},
        }
    }
}

/// A run that ends within `x` is the same whatever follows `x`.
pub proof fn lemma_run_is_local(
    set: CharSet,
    x: Seq<SourceChar>,
    a: Seq<SourceChar>,
    b: Seq<SourceChar>,
)
    requires
        run_len(set, x + a) < x.len(),
    ensures
        run_len(set, x + b) == run_len(set, x + a),
{
    let n = run_len(set, x + a);
    lemma_run_len(set, x + a);
    assert forall|i: int| 0 <= i < n implies set.contains(#[trigger] (x + b)[i]) by {
        assert((x + b)[i] == (x + a)[i]);
    }
    assert((x + b)[n as int] == (x + a)[n as int]);
    lemma_run_len_is(set, x + b, n);
}

/// A string literal that closes within `y` is the same whatever follows `y`.
pub proof fn lemma_string_is_local(y: Seq<SourceChar>, a: Seq<SourceChar>, b: Seq<SourceChar>)
    requires
        string_body(y + a) matches Some((_, n)) && n <= y.len(),
    ensures
        string_body(y + b) == string_body(y + a),
    decreases y.len(),
{
    let sa = y + a;
    let sb = y + b;
    lemma_string_body_len(sa);
    assert(y.len() > 0);
    assert(sa[0] == y[0] && sb[0] == y[0]);
    if y[0].ch == '"' {
    } else if y[0].ch == '\\' {
        lemma_string_body_len(sa.skip(2));
        assert(y.len() >= 2);
        assert(sa[1] == y[1] && sb[1] == y[1]);
        assert(sa.skip(2) =~= y.skip(2) + a);
        assert(sb.skip(2) =~= y.skip(2) + b);
        lemma_string_is_local(y.skip(2), a, b);
    } else {
        assert(sa.skip(1) =~= y.skip(1) + a);
        assert(sb.skip(1) =~= y.skip(1) + b);
        lemma_string_is_local(y.skip(1), a, b);
    }
}

/// A lexeme that ends within `x` is the same whatever follows `x`.
pub proof fn lemma_lexeme_is_local(
    x: Seq<SourceChar>,
    a: Seq<SourceChar>,
    b: Seq<SourceChar>,
    offset: nat,
)
    requires
        lexeme(x + a, offset) matches Ok((_, len)) && len < x.len(),
    ensures
        lexeme(x + b, offset) == lexeme(x + a, offset),
{
    let sa = x + a;
    let sb = x + b;
    let c = x[0];
    lemma_lexeme_len(sa, offset);
    assert(sa[0] == c && sb[0] == c);
    if x.len() > 1 {
        assert(sa[1] == x[1] && sb[1] == x[1]);
    }
    if c.ch == '\n' || crate::lex::symbol(sa) is Some {
    } else if is_digit(c.ch) {
        let whole = run_len(CharSet::Digit, sa);
        lemma_run_len(CharSet::Digit, sa);
        if whole < sa.len() && sa[whole as int].ch == '.' {
            lemma_run_len(CharSet::Digit, sa.skip(whole + 1 as int));
        }
        lemma_run_is_local(CharSet::Digit, x, a, b);
        assert(sa[whole as int] == x[whole as int] && sb[whole as int] == x[whole as int]);
        assert(sa.take(whole as int) =~= sb.take(whole as int));
        if sa[whole as int].ch == '.' {
            let rest = x.skip(whole + 1 as int);
            assert(sa.skip(whole + 1 as int) =~= rest + a);
            assert(sb.skip(whole + 1 as int) =~= rest + b);
            lemma_run_is_local(CharSet::Digit, rest, a, b);
            let len = whole + 1 + run_len(CharSet::Digit, rest + a);
            assert(sa.take(len as int) =~= sb.take(len as int));
        }
    } else if c.ch == '"' {
        let body = x.skip(1);
        assert(sa.skip(1) =~= body + a);
        assert(sb.skip(1) =~= body + b);
        lemma_string_is_local(body, a, b);
    } else if c.whitespace {
    } else if starts_word(c) {
        let tail = x.skip(1);
        assert(sa.skip(1) =~= tail + a);
        assert(sb.skip(1) =~= tail + b);
        lemma_run_is_local(CharSet::Word, tail, a, b);
        let len = 1 + run_len(CharSet::Word, tail + a);
        assert(sa.take(len as int) =~= sb.take(len as int));
    }
}

/// The line-end marker comes from a newline and from nothing else.
pub proof fn lemma_line_end_is_a_newline(s: Seq<SourceChar>, offset: nat)
    requires
        s.len() > 0,
    ensures
        lexeme(s, offset) matches Ok((Some(SpecToken::Newl), len)) ==> len == 1 && s[0].ch
            == '\n',
        s[0].ch == '\n' ==> lexeme(s, offset) == Ok::<(Option<SpecToken>, nat), LexError>(
            (Some(SpecToken::Newl), 1),
        ),
{
}

/// Measuring the indentation on the way to a line start at the end of `x` stays
/// within `x` and does not depend on what follows `x`.
proof fn lemma_indent_step_is_local(
    x: Seq<SourceChar>,
    a: Seq<SourceChar>,
    b: Seq<SourceChar>,
    offset: nat,
    stack: Seq<nat>,
)
    requires
        x.len() > 0,
        line_start_at(x + a, offset, stack, true, offset + x.len()) is Some,
    ensures
        leading_blanks(x + a) < x.len(),
        leading_blanks(x + b) == leading_blanks(x + a),
        indent_width(x + b) == indent_width(x + a),
        indent_change(stack, indent_width(x + a)) is Some,
        (x + a).skip(leading_blanks(x + a) as int) == x.skip(leading_blanks(x + a) as int) + a,
        (x + b).skip(leading_blanks(x + a) as int) == x.skip(leading_blanks(x + a) as int) + b,
{
    let sa = x + a;
    let sb = x + b;
    let target = offset + x.len();
    let blanks = leading_blanks(sa);
    lemma_run_len(CharSet::Blank, sa);
    match indent_change(stack, indent_width(sa)) {
        Some((open, marks)) => {
            if blanks >= x.len() {
                assert(line_start_at(sa.skip(blanks as int), offset + blanks, open, false, target)
                    is None);
            } else {
                lemma_run_is_local(CharSet::Blank, x, a, b);
                assert(sa.take(blanks as int) =~= sb.take(blanks as int));
                assert(sa.skip(blanks as int) =~= x.skip(blanks as int) + a);
                assert(sb.skip(blanks as int) =~= x.skip(blanks as int) + b);
            }
        },
        None => {},
    }
}

/// Taking a lexeme on the way to a line start at the end of `x` stays within `x`
/// and does not depend on what follows `x`; a lexeme that ends `x` is a newline.
proof fn lemma_lexeme_step_is_local(
    x: Seq<SourceChar>,
    a: Seq<SourceChar>,
    b: Seq<SourceChar>,
    offset: nat,
    stack: Seq<nat>,
)
    requires
        x.len() > 0,
        line_start_at(x + a, offset, stack, false, offset + x.len()) is Some,
    ensures
        lexeme(x + a, offset) matches Ok((token, len)) && 1 <= len <= x.len() && (len == x.len()
            ==> token == Some(SpecToken::Newl)) && (x + a).skip(len as int) == x.skip(len as int)
            + a && (x + b).skip(len as int) == x.skip(len as int) + b,
        lexeme(x + b, offset) == lexeme(x + a, offset),
{
    let sa = x + a;
    let sb = x + b;
    let target = offset + x.len();
    match lexeme(sa, offset) {
        Ok((token, len)) => {
            lemma_lexeme_len(sa, offset);
            let at_line_start = token == Some(SpecToken::Newl);
            let next = line_start_at(sa.skip(len as int), offset + len, stack, at_line_start, target);
            assert(line_start_at(sa, offset, stack, false, target) == ahead(optional(token), next));
            if len > x.len() {
                assert(next is None);
            } else {
                assert(sa.skip(len as int) =~= x.skip(len as int) + a);
                assert(sb.skip(len as int) =~= x.skip(len as int) + b);
                if len == x.len() {
                    assert(at_line_start);
                    lemma_line_end_is_a_newline(sa, offset);
                    assert(sb[0] == sa[0]);
                    lemma_line_end_is_a_newline(sb, offset);
                } else {
                    lemma_lexeme_is_local(x, a, b, offset);
                }
            }
        },
        Err(_) => {},
    }
}

/// Where the scanner stands at the start of a line at the end of `x`, it has got
/// there in the same way whatever follows `x`.
pub proof fn lemma_line_start_is_local(
    x: Seq<SourceChar>,
    a: Seq<SourceChar>,
    b: Seq<SourceChar>,
    offset: nat,
    stack: Seq<nat>,
    line_start: bool,
)
    requires
        line_start_at(x + a, offset, stack, line_start, offset + x.len()) is Some,
    ensures
        line_start_at(x + b, offset, stack, line_start, offset + x.len()) == line_start_at(
            x + a,
            offset,
            stack,
            line_start,
            offset + x.len(),
        ),
    decreases x.len(), (if line_start {
        1nat
    } else {
        0nat
    }),
{
    let target = offset + x.len();
    if x.len() == 0 {
    } else if line_start {
        lemma_indent_step_is_local(x, a, b, offset, stack);
        let blanks = leading_blanks(x + a);
        let (open, marks) = indent_change(stack, indent_width(x + a)).unwrap();
        let rest = x.skip(blanks as int);
        assert(line_start_at(x + a, offset, stack, true, target) == ahead(
            marks,
            line_start_at(rest + a, offset + blanks, open, false, target),
        ));
        assert(line_start_at(x + b, offset, stack, true, target) == ahead(
            marks,
            line_start_at(rest + b, offset + blanks, open, false, target),
        ));
        lemma_line_start_is_local(rest, a, b, offset + blanks, open, false);
    } else {
        lemma_lexeme_step_is_local(x, a, b, offset, stack);
        let (token, len) = lexeme(x + a, offset).unwrap();
        let at_line_start = token == Some(SpecToken::Newl);
        let rest = x.skip(len as int);
        assert(line_start_at(x + a, offset, stack, false, target) == ahead(
            optional(token),
            line_start_at(rest + a, offset + len, stack, at_line_start, target),
        ));
        assert(line_start_at(x + b, offset, stack, false, target) == ahead(
            optional(token),
            line_start_at(rest + b, offset + len, stack, at_line_start, target),
        ));
        lemma_line_start_is_local(rest, a, b, offset + len, stack, at_line_start);
    }
}

/// Whether a line starts at the end of `before` depends on `before` alone, not on
/// what follows it.
pub proof fn law_line_start_depends_on_what_precedes(
    before: Seq<SourceChar>,
    a: Seq<SourceChar>,
    b: Seq<SourceChar>,
)
    ensures
        starts_line(before + a, before.len()) == starts_line(before + b, before.len()),
{
    let stack = seq![0nat];
    if starts_line(before + a, before.len()) {
        lemma_line_start_is_local(before, a, b, 0, stack, true);
    }
    if starts_line(before + b, before.len()) {
        lemma_line_start_is_local(before, b, a, 0, stack, true);
    }
}

/// Tokens put in front leave the offset of an error alone.
pub proof fn lemma_forget_offset_emit(front: Seq<SpecToken>, rest: Result<Seq<SpecToken>, LexError>)
    ensures
        forget_offset(emit(front, rest)) == emit(front, forget_offset(rest)),
{
}

/// In any line of a source, only the width of the indentation counts: where a line
/// starts after `before`, two runs of blanks `a` and `b` that take equally many
/// columns give the same tokens, whatever the rest of the source.
pub proof fn law_indentation_counts_in_every_line(
    before: Seq<SourceChar>,
    a: Seq<SourceChar>,
    b: Seq<SourceChar>,
    rest: Seq<SourceChar>,
)
    requires
        all_blank(a),
        all_blank(b),
        columns(a) == columns(b),
        starts_line(before + (a + rest), before.len()),
    ensures
        starts_line(before + (b + rest), before.len()),
        forget_offset(tokens_of(before + (a + rest))) == forget_offset(
            tokens_of(before + (b + rest)),
        ),
{
    let sa = a + rest;
    let sb = b + rest;
    let stack = seq![0nat];
    let n = before.len();
    lemma_line_start_is_local(before, sa, sb, 0, stack, true);
    lemma_resume_at_line_start(before + sa, 0, stack, true, n);
    lemma_resume_at_line_start(before + sb, 0, stack, true, n);
    let (emitted, open) = line_start_at(before + sa, 0, stack, true, n).unwrap();
    assert((before + sa).skip(n as int) =~= sa);
    assert((before + sb).skip(n as int) =~= sb);
    law_indentation_counts_by_width(a, b, rest, n + b.len(), n + a.len(), open);
    lemma_offset_shows_in_error_only(sa, n, n + b.len(), open, true);
    lemma_offset_shows_in_error_only(sb, n, n + a.len(), open, true);
    lemma_forget_offset_emit(emitted, scan_from(sa, n, open, true));
    lemma_forget_offset_emit(emitted, scan_from(sb, n, open, true));
}

/// Every source starts with a line.
pub proof fn law_first_line_starts(source: Seq<SourceChar>)
    ensures
        starts_line(source, 0),
{
}

/// A line indented by one tab gives the tokens of the same line indented by four
/// spaces, in whatever line of a text: the first line (`before` is empty) or any
/// line that starts after `before`.
pub proof fn law_tab_indents_like_four_spaces(before: Seq<char>, line: Seq<char>)
    requires
        starts_line(classified_text(before + (seq![' ', ' ', ' ', ' '] + line)), before.len()),
    ensures
        forget_offset(tokens_of(classified_text(before + (seq![' ', ' ', ' ', ' '] + line))))
            == forget_offset(tokens_of(classified_text(before + (seq!['\t'] + line)))),
{
    let spaces = classified_text(seq![' ', ' ', ' ', ' ']);
    let tab = classified_text(seq!['\t']);
    let front = classified_text(before);
    let rest = classified_text(line);
    assert(classified_text(before + (seq![' ', ' ', ' ', ' '] + line)) =~= front + (spaces + rest));
    assert(classified_text(before + (seq!['\t'] + line)) =~= front + (tab + rest));
    assert(columns(spaces) == 4) by {
        reveal_with_fuel(columns, 5);
        assert(spaces.drop_last().drop_last().drop_last().drop_last().len() == 0);
    }
    assert(columns(tab) == 4) by {
        reveal_with_fuel(columns, 2);
        assert(tab.drop_last().len() == 0);
    }
    law_indentation_counts_in_every_line(front, spaces, tab, rest);
}

} // verus!
