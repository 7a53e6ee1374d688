//! Indentation: how far a line is indented, and what the stack of open blocks makes
//! of it.
//!
//! Indentation is counted in columns, one for a space and four for a tab. The stack
//! of open blocks holds the indentation of every enclosing block, innermost last; it
//! starts as `[0]`, never becomes empty, and grows strictly from bottom to top.

use vstd::prelude::*;
use crate::run::{lemma_run_len_is, run_len, CharSet};
use crate::source::SourceChar;
use crate::token::{lemma_token_views_push, token_views, SpecToken, Token};

verus! {

/// Columns taken by one blank.
pub open spec fn blank_width(c: SourceChar) -> nat {
    if c.ch == '\t' {
        4
    } else {
        1
    }
}

/// Columns taken by a run of blanks.
pub open spec fn columns(blanks: Seq<SourceChar>) -> nat
    decreases blanks.len(),
{
    if blanks.len() == 0 {
        0
    } else {
        columns(blanks.drop_last()) + blank_width(blanks.last())
    }
}

/// The number of blanks that `line` begins with.
pub open spec fn leading_blanks(line: Seq<SourceChar>) -> nat {
    run_len(CharSet::Blank, line)
}

/// The indentation of `line`, in columns.
pub open spec fn indent_width(line: Seq<SourceChar>) -> nat {
    columns(line.take(leading_blanks(line) as int))
}

/// The stack of open blocks is valid: it holds level zero at the bottom and grows
/// strictly towards the top.
pub open spec fn stack_ok(stack: Seq<nat>) -> bool {
    &&& stack.len() > 0
    &&& stack[0] == 0
    &&& forall|i: int, j: int| 0 <= i < j < stack.len() ==> stack[i] < stack[j]
}

/// The levels of an executable stack as natural numbers.
pub open spec fn levels(stack: Seq<u128>) -> Seq<nat> {
    Seq::new(stack.len(), |i: int| stack[i] as nat)
}

/// How many levels at the top of `stack` lie strictly above `indent`.
pub open spec fn levels_above(stack: Seq<nat>, indent: nat) -> nat
    decreases stack.len(),
{
    if stack.len() > 0 && stack.last() > indent {
        1 + levels_above(stack.drop_last(), indent)
    } else {
        0
    }
}

/// `count` block-close markers.
pub open spec fn dedents(count: nat) -> Seq<SpecToken> {
    Seq::new(count, |i: int| SpecToken::Dedent)
}

/// What a line indented by `indent` columns does to the stack of open blocks: the
/// new stack and the markers to emit, or `None` when the line closes blocks without
/// landing on the indentation of an enclosing one.
pub open spec fn indent_change(stack: Seq<nat>, indent: nat) -> Option<(Seq<nat>, Seq<SpecToken>)> {
    if stack.len() > 0 && indent > stack.last() {
        Some((stack.push(indent), seq![SpecToken::Indent]))
    } else {
        let closed = levels_above(stack, indent);
        let rest = stack.take(stack.len() - closed);
        if rest.len() > 0 && rest.last() == indent {
            Some((rest, dedents(closed)))
        } else {
            None
        }
    }
}

/// The markers that close every block still open at the end of the source.
pub open spec fn closing(stack: Seq<nat>) -> Seq<SpecToken> {
    dedents((stack.len() - 1) as nat)
}

/// Only levels of the stack can lie above an indentation, and the bottom level does
/// not lie above one that is at least as large.
pub proof fn lemma_levels_above_bound(stack: Seq<nat>, indent: nat)
    ensures
        levels_above(stack, indent) <= stack.len(),
        stack.len() > 0 && stack[0] <= indent ==> levels_above(stack, indent) < stack.len(),
    decreases stack.len(),
{
    if stack.len() > 0 && stack.last() > indent {
        lemma_levels_above_bound(stack.drop_last(), indent);
    }
}

/// A change of indentation keeps the stack valid.
pub proof fn lemma_indent_change_ok(stack: Seq<nat>, indent: nat)
    requires
        stack_ok(stack),
    ensures
        indent_change(stack, indent) matches Some((next, marks)) ==> stack_ok(next),
{
    lemma_levels_above_bound(stack, indent);
}

/// One more blank adds its width.
pub proof fn lemma_columns_push(blanks: Seq<SourceChar>, c: SourceChar)
    ensures
        columns(blanks.push(c)) == columns(blanks) + blank_width(c),
{
    assert(blanks.push(c).drop_last() =~= blanks);
}

/// Measures the indentation of the line that begins at `start`: where its blanks end
/// and how many columns they take.
pub fn measure_indent(source: &[SourceChar], start: usize) -> (r: (usize, u128))
    requires
        start <= source.len(),
    ensures
        r.0 == start + leading_blanks(source@.skip(start as int)),
        start <= r.0 <= source.len(),
        r.1 == indent_width(source@.skip(start as int)),
{
    let mut end: usize = start;
    let mut width: u128 = 0;
    while end < source.len() && CharSet::Blank.holds(source[end])
        invariant
            start <= end <= source.len(),
            forall|i: int| start <= i < end ==> CharSet::Blank.contains(#[trigger] source@[i]),
            width == columns(source@.subrange(start as int, end as int)),
            width <= 4 * (end - start),
        decreases source.len() - end,
    {
        proof {
            lemma_columns_push(source@.subrange(start as int, end as int), source@[end as int]);
            assert(source@.subrange(start as int, end + 1) =~= source@.subrange(
                start as int,
                end as int,
            ).push(source@[end as int]));
        }
        if source[end].ch == '\t' {
            width += 4;
        } else {
            width += 1;
        }
        end += 1;
    }
    proof {
        let line = source@.skip(start as int);
        lemma_run_len_is(CharSet::Blank, line, (end - start) as nat);
        assert(line.take(end - start) =~= source@.subrange(start as int, end as int));
    }
    (end, width)
}

/// Applies the indentation of a new line: pushes or pops levels and appends the
/// block markers. Returns `false` when the indentation matches no open block; the
/// levels above it are then popped and their markers appended all the same.
pub fn apply_indent(stack: &mut Vec<u128>, tokens: &mut Vec<Token>, indent: u128) -> (consistent:
    bool)
    requires
        old(stack)@.len() > 0,
    ensures
        consistent == indent_change(levels(old(stack)@), indent as nat).is_some(),
        consistent ==> levels(final(stack)@) == indent_change(
            levels(old(stack)@),
            indent as nat,
        ).unwrap().0,
        consistent ==> token_views(final(tokens)@) == token_views(old(tokens)@) + indent_change(
            levels(old(stack)@),
            indent as nat,
        ).unwrap().1,
        !consistent ==> levels(final(stack)@) == levels(old(stack)@).take(
            old(stack)@.len() - levels_above(levels(old(stack)@), indent as nat),
        ),
        !consistent ==> token_views(final(tokens)@) == token_views(old(tokens)@) + dedents(
            levels_above(levels(old(stack)@), indent as nat),
        ),
{
    let ghost before = levels(stack@);
    let ghost emitted = token_views(tokens@);
    if indent > stack[stack.len() - 1] {
        proof {
            lemma_token_views_push(tokens@, Token::Indent);
        }
        stack.push(indent);
        tokens.push(Token::Indent);
        assert(levels(stack@) =~= before.push(indent as nat));
        assert(emitted.push(SpecToken::Indent) =~= emitted + seq![SpecToken::Indent]);
        return true;
    }
    let mut closed: usize = 0;
    while stack.len() > 0 && stack[stack.len() - 1] > indent
        invariant
            before.len() <= usize::MAX,
            before.len() == stack@.len() + closed,
            levels(stack@) == before.take(before.len() - closed),
            levels_above(before, indent as nat) == closed + levels_above(
                levels(stack@),
                indent as nat,
            ),
            token_views(tokens@) == emitted + dedents(closed as nat),
        decreases stack.len(),
    {
        let ghost open = levels(stack@);
        proof {
            lemma_token_views_push(tokens@, Token::Dedent);
        }
        stack.pop();
        tokens.push(Token::Dedent);
        closed += 1;
        proof {
            assert(levels(stack@) =~= open.drop_last());
            assert(open.drop_last() =~= before.take(before.len() - closed));
            assert((emitted + dedents((closed - 1) as nat)).push(SpecToken::Dedent) =~= emitted
                + dedents(closed as nat));
        }
    }
    assert(token_views(tokens@) == emitted + dedents(closed as nat));
    stack.len() > 0 && stack[stack.len() - 1] == indent
}

/// Appends the markers that close every block still open.
pub fn close_blocks(stack: &Vec<u128>, tokens: &mut Vec<Token>)
    requires
        stack@.len() > 0,
    ensures
        token_views(final(tokens)@) == token_views(old(tokens)@) + closing(levels(stack@)),
{
    let ghost emitted = token_views(tokens@);
    let mut closed: usize = 1;
    while closed < stack.len()
        invariant
            1 <= closed <= stack.len(),
            token_views(tokens@) == emitted + dedents((closed - 1) as nat),
        decreases stack.len() - closed,
    {
        proof {
            lemma_token_views_push(tokens@, Token::Dedent);
        }
        tokens.push(Token::Dedent);
        closed += 1;
        assert((emitted + dedents((closed - 2) as nat)).push(SpecToken::Dedent) =~= emitted
            + dedents((closed - 1) as nat));
    }
}

} // verus!
