//! What makes a run of tokens a token stream.
//!
//! A token stream ends with the end-of-stream marker, which occurs nowhere else in
//! it, and its block markers pair up: no block is closed before it was opened, and
//! every block that was opened is closed. Its literals and identifiers are what the
//! lexical grammar allows.

use vstd::prelude::*;
use crate::indent::dedents;
use crate::literal::{all_digits, decimal_value, float_limit};
use crate::token::SpecToken;
use crate::word::keyword;

verus! {

/// `text` is a floating literal in range: digits, a point and further digits, if
/// any, with a whole part below the limit.
pub open spec fn is_float_text(text: Seq<char>) -> bool {
    exists|whole: int|
        {
            &&& 0 < whole < text.len()
            &&& all_digits(#[trigger] text.take(whole))
            &&& text[whole] == '.'
            &&& all_digits(text.skip(whole + 1))
            &&& decimal_value(text.take(whole)) < float_limit()
        }
}

/// `token` is one that the scanner can emit: an integer is not negative, a floating
/// literal is in range, and an identifier is not empty and is no reserved word.
pub open spec fn well_formed(token: SpecToken) -> bool {
    match token {
        SpecToken::Number(n) => n >= 0,
        SpecToken::Float(text) => is_float_text(text),
        SpecToken::Identifier(name) => name.len() > 0 && keyword(name) is None,
        _ => true,
    }
}

/// Every token of `ts` is well-formed.
pub open spec fn all_well_formed(ts: Seq<SpecToken>) -> bool {
    forall|i: int| 0 <= i < ts.len() ==> well_formed(#[trigger] ts[i])
}

/// How often `token` occurs in `ts`.
pub open spec fn count(ts: Seq<SpecToken>, token: SpecToken) -> nat
    decreases ts.len(),
{
    if ts.len() == 0 {
        0
    } else {
        count(ts.drop_last(), token) + if ts.last() == token {
            1nat
        } else {
            0nat
        }
    }
}

/// The number of block-open markers in `ts`.
pub open spec fn opened(ts: Seq<SpecToken>) -> nat {
    count(ts, SpecToken::Indent)
}

/// The number of block-close markers in `ts`.
pub open spec fn closed(ts: Seq<SpecToken>) -> nat {
    count(ts, SpecToken::Dedent)
}

/// In `ts`, read while `open` blocks are open, no prefix closes more blocks than it
/// opens and `open` together.
pub open spec fn nested_within(ts: Seq<SpecToken>, open: nat) -> bool {
    forall|k: int| 0 <= k <= ts.len() ==> closed(#[trigger] ts.take(k)) <= opened(ts.take(k)) + open
}

/// The end-of-stream marker ends `ts` and occurs nowhere else in it.
pub open spec fn ends_once(ts: Seq<SpecToken>) -> bool {
    &&& ts.len() > 0
    &&& forall|i: int| 0 <= i < ts.len() ==> (#[trigger] ts[i] == SpecToken::EOF <==> i == ts.len() - 1)
}

/// `ts` is a token stream.
pub open spec fn is_stream(ts: Seq<SpecToken>) -> bool {
    &&& ends_once(ts)
    &&& opened(ts) == closed(ts)
    &&& nested_within(ts, 0)
    &&& all_well_formed(ts)
}

/// Counting in two runs on end is counting in each and adding up.
pub proof fn lemma_count_concat(a: Seq<SpecToken>, b: Seq<SpecToken>, token: SpecToken)
    ensures
        count(a + b, token) == count(a, token) + count(b, token),
    decreases b.len(),
{
    if b.len() == 0 {
        assert(a + b =~= a);
    } else {
        assert((a + b).drop_last() =~= a + b.drop_last());
        lemma_count_concat(a, b.drop_last(), token);
    }
}

/// A single token counts once if it is the token counted, and not at all otherwise.
pub proof fn lemma_count_one(t: SpecToken, token: SpecToken)
    ensures
        count(seq![t], token) == if t == token {
            1nat
        } else {
            0nat
        },
{
    assert(seq![t].drop_last() =~= Seq::<SpecToken>::empty());
    assert(count(Seq::<SpecToken>::empty(), token) == 0);
}

/// A run of block-close markers holds nothing else, and its prefixes are such runs.
pub proof fn lemma_count_dedents(n: nat)
    ensures
        closed(dedents(n)) == n,
        opened(dedents(n)) == 0,
        forall|k: int| 0 <= k <= n ==> #[trigger] dedents(n).take(k) == dedents(k as nat),
    decreases n,
{
    if n > 0 {
        assert(dedents(n).drop_last() =~= dedents((n - 1) as nat));
        lemma_count_dedents((n - 1) as nat);
    }
    assert forall|k: int| 0 <= k <= n implies #[trigger] dedents(n).take(k) == dedents(
        k as nat,
    ) by {
        assert(dedents(n).take(k) =~= dedents(k as nat));
    }
}

/// Tokens `front` in front of a run `rest` that ends once and nests: the whole ends
/// once and nests, provided that `front` holds no end-of-stream marker, nests on
/// its own, and leaves as many blocks open as `rest` was read with.
pub proof fn lemma_stream_concat(
    front: Seq<SpecToken>,
    rest: Seq<SpecToken>,
    open_before: nat,
    open_after: nat,
)
    requires
        forall|i: int| 0 <= i < front.len() ==> front[i] != SpecToken::EOF,
        nested_within(front, open_before),
        open_before + opened(front) == open_after + closed(front),
        ends_once(rest),
        nested_within(rest, open_after),
        closed(rest) == opened(rest) + open_after,
    ensures
        ends_once(front + rest),
        nested_within(front + rest, open_before),
        closed(front + rest) == opened(front + rest) + open_before,
{
    let all = front + rest;
    lemma_count_concat(front, rest, SpecToken::Indent);
    lemma_count_concat(front, rest, SpecToken::Dedent);
    assert forall|k: int| 0 <= k <= all.len() implies closed(#[trigger] all.take(k)) <= opened(
        all.take(k),
    ) + open_before by {
        if k <= front.len() {
            assert(all.take(k) =~= front.take(k));
        } else {
            let j = k - front.len();
            assert(all.take(k) =~= front + rest.take(j));
            lemma_count_concat(front, rest.take(j), SpecToken::Indent);
            lemma_count_concat(front, rest.take(j), SpecToken::Dedent);
        }
    }
    assert forall|i: int| 0 <= i < all.len() implies (#[trigger] all[i] == SpecToken::EOF <==> i
        == all.len() - 1) by {
        if i >= front.len() {
            assert(all[i] == rest[i - front.len()]);
        }
    }
}

} // verus!
