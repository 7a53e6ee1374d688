//! What holds of every tree that the parser builds.
//!
//! A tree is a reading of the tokens it was built from: written out again
//! ([`spelled`]) it gives exactly those tokens. Among the readings of a run of
//! tokens the parser builds the one in which tighter operators sit deeper and
//! operators of one level group to the left ([`grouped`]), and it reads on for as
//! long as an operator follows that it may take ([`stops`]).

use vstd::prelude::*;
use crate::parser::{
    binary_op,
    continuation,
    expression,
    leaf_entry,
    operand,
    precedence,
    primary,
    remaining,
    tree_of,
    unary_op,
    Parsed,
    SpecParseError,
    LOWEST,
    MAX_DEPTH,
};
use crate::token::SpecToken;
use crate::tree::{BinaryOp, SpecGrammar, SpecNode, UnaryOp};

verus! {

/// The token that spells `op` between two operands.
pub open spec fn binary_token(op: BinaryOp) -> SpecToken {
    match op {
        BinaryOp::Or => SpecToken::Or,
        BinaryOp::And => SpecToken::And,
        BinaryOp::Equal => SpecToken::ComparativeEqual,
        BinaryOp::NotEqual => SpecToken::NotEqual,
        BinaryOp::Less => SpecToken::LessThan,
        BinaryOp::Greater => SpecToken::GreaterThan,
        BinaryOp::LArrow => SpecToken::LArrow,
        BinaryOp::RArrow => SpecToken::RArrow,
        BinaryOp::Add => SpecToken::Plus,
        BinaryOp::Sub => SpecToken::Minus,
        BinaryOp::Mul => SpecToken::Multiply,
        BinaryOp::Div => SpecToken::Divide,
        BinaryOp::Rem => SpecToken::Modulo,
    }
}

/// The token that spells `op` in front of an operand.
pub open spec fn unary_token(op: UnaryOp) -> SpecToken {
    match op {
        UnaryOp::Neg => SpecToken::Minus,
        UnaryOp::Not => SpecToken::Not,
    }
}

/// The tokens that spell the tree `node`, in order.
pub open spec fn spelled(node: SpecNode) -> Seq<SpecToken>
    decreases node,
{
    match node.entry {
        SpecGrammar::Number(n) => seq![SpecToken::Number(n)],
        SpecGrammar::Float(text) => seq![SpecToken::Float(text)],
        SpecGrammar::String(text) => seq![SpecToken::String(text)],
        SpecGrammar::Identifier(name) => seq![SpecToken::Identifier(name)],
        SpecGrammar::Paren => if node.children.len() == 1 {
            seq![SpecToken::LParen] + spelled(node.children[0]) + seq![SpecToken::RParen]
        } else {
            seq![SpecToken::LParen, SpecToken::RParen]
        },
        SpecGrammar::Unary(op) => if node.children.len() == 1 {
            seq![unary_token(op)] + spelled(node.children[0])
        } else {
            seq![unary_token(op)]
        },
        SpecGrammar::Binary(op) => if node.children.len() == 2 {
            spelled(node.children[0]) + seq![binary_token(op)] + spelled(node.children[1])
        } else {
            seq![binary_token(op)]
        },
    }
}

/// How tightly the top of `node` binds: the level of its operator where it is a
/// binary operation, and tighter than every such level otherwise.
pub open spec fn binding(node: SpecNode) -> nat {
    match node.entry {
        SpecGrammar::Binary(op) => precedence(op),
        _ => 7,
    }
}

/// The operators of `node` are grouped as their levels ask: a binary operation has
/// nothing that binds looser on its left and only what binds tighter on its right,
/// and a prefix operator applies to no bare binary operation.
pub open spec fn grouped(node: SpecNode) -> bool
    decreases node,
{
    &&& forall|i: int| 0 <= i < node.children.len() ==> grouped(#[trigger] node.children[i])
    &&& match node.entry {
        SpecGrammar::Binary(op) => node.children.len() == 2 ==> binding(node.children[0])
            >= precedence(op) && binding(node.children[1]) > precedence(op),
        SpecGrammar::Unary(_) => node.children.len() == 1 ==> binding(node.children[0]) == 7,
        _ => true,
    }
}

/// No binary operator of level `min_prec` or tighter stands at `pos`.
pub open spec fn stops(ts: Seq<SpecToken>, pos: nat, min_prec: nat) -> bool {
    !(pos < ts.len() && binary_op(ts[pos as int]) is Some && precedence(
        binary_op(ts[pos as int]).unwrap(),
    ) >= min_prec)
}

/// `node` is a reading of the tokens from `from` up to `to` that binds at level
/// `min_prec` or tighter at its top.
pub open spec fn reads(ts: Seq<SpecToken>, node: SpecNode, from: nat, to: nat, min_prec: nat) -> bool {
    &&& from <= to <= ts.len()
    &&& node.well_formed()
    &&& grouped(node)
    &&& spelled(node) == ts.subrange(from as int, to as int)
    &&& binding(node) >= min_prec
}

/// A primary that is read spans at least one token and is a reading of the tokens
/// it spans. (The four lemmas that follow go through the grammar together.)
proof fn lemma_primary_reads(ts: Seq<SpecToken>, pos: nat, depth: nat)
    ensures
        primary(ts, pos, depth) matches Ok((node, len)) ==> len >= 1 && reads(
            ts,
            node,
            pos,
            pos + len,
            7,
        ),
    decreases remaining(ts, pos), 1nat,
{
    if pos < ts.len() && ts[pos as int] == SpecToken::LParen {
        if depth < MAX_DEPTH {
            lemma_expression_reads(ts, pos + 1, LOWEST as nat, depth + 1);
            match expression(ts, pos + 1, LOWEST as nat, depth + 1) {
                Ok((inner, len)) => {
                    let close = pos + 1 + len;
                    if close < ts.len() && ts[close as int] == SpecToken::RParen {
                        let node = SpecNode::group(inner);
                        assert(node.children[0] == inner);
                        assert(spelled(node) =~= ts.subrange(pos as int, close + 1 as int));
                    }
                },
                Err(_) => {},
            }
        }
    } else if pos < ts.len() && leaf_entry(ts[pos as int]) is Some {
        let node = SpecNode::leaf(leaf_entry(ts[pos as int]).unwrap());
        assert(spelled(node) =~= ts.subrange(pos as int, pos + 1 as int));
    }
}

/// An operand that is read spans at least one token and is a reading of the tokens
/// it spans.
proof fn lemma_operand_reads(ts: Seq<SpecToken>, pos: nat, depth: nat)
    ensures
        operand(ts, pos, depth) matches Ok((node, len)) ==> len >= 1 && reads(
            ts,
            node,
            pos,
            pos + len,
            7,
        ),
    decreases remaining(ts, pos), 2nat,
{
    if pos < ts.len() && unary_op(ts[pos as int]) is Some {
        if depth < MAX_DEPTH {
            lemma_operand_reads(ts, pos + 1, depth + 1);
            match operand(ts, pos + 1, depth + 1) {
                Ok((inner, len)) => {
                    let node = SpecNode::unary(unary_op(ts[pos as int]).unwrap(), inner);
                    assert(node.children[0] == inner);
                    assert(spelled(node) =~= ts.subrange(pos as int, pos + 1 + len as int));
                },
                Err(_) => {},
            }
        }
    } else {
        lemma_primary_reads(ts, pos, depth);
    }
}

/// An expression that is read spans at least one token, is a reading of the tokens
/// it spans, and stops where no operator follows that it may take.
proof fn lemma_expression_reads(ts: Seq<SpecToken>, pos: nat, min_prec: nat, depth: nat)
    requires
        min_prec <= 7,
    ensures
        expression(ts, pos, min_prec, depth) matches Ok((node, len)) ==> len >= 1 && reads(
            ts,
            node,
            pos,
            pos + len,
            min_prec,
        ) && stops(ts, pos + len, min_prec),
    decreases remaining(ts, pos), 3nat,
{
    lemma_operand_reads(ts, pos, depth);
    match operand(ts, pos, depth) {
        Ok((left, len)) => {
            lemma_continuation_reads(ts, left, pos, pos + len, min_prec, depth);
        },
        Err(_) => {},
    }
}

/// Applying operators to a reading of the tokens from `from` up to `pos` gives a
/// reading of the tokens from `from` up to where it stops.
proof fn lemma_continuation_reads(
    ts: Seq<SpecToken>,
    left: SpecNode,
    from: nat,
    pos: nat,
    min_prec: nat,
    depth: nat,
)
    requires
        min_prec <= 7,
        reads(ts, left, from, pos, min_prec),
        stops(ts, pos, binding(left) + 1),
    ensures
        continuation(ts, left, pos, min_prec, depth) matches Ok((node, len)) ==> reads(
            ts,
            node,
            from,
            pos + len,
            min_prec,
        ) && stops(ts, pos + len, min_prec),
    decreases remaining(ts, pos), 0nat,
{
    if pos < ts.len() && binary_op(ts[pos as int]) is Some && precedence(
        binary_op(ts[pos as int]).unwrap(),
    ) >= min_prec {
        let op = binary_op(ts[pos as int]).unwrap();
        lemma_expression_reads(ts, pos + 1, precedence(op) + 1, depth);
        match expression(ts, pos + 1, precedence(op) + 1, depth) {
            Ok((right, len)) => {
                let node = SpecNode::binary(op, left, right);
                let next = pos + 1 + len;
                assert(node.children[0] == left);
                assert(node.children[1] == right);
                assert(spelled(node) =~= ts.subrange(from as int, next as int));
                lemma_continuation_reads(ts, node, from, next, min_prec, depth);
            },
            Err(_) => {},
        }
    }
}

/// An expression that the parser reads spans at least one token, spells exactly the
/// tokens it spans, has its operators grouped by level and to the left, and is
/// followed by no operator that it could have taken.
pub proof fn law_expression_reads_its_tokens(
    ts: Seq<SpecToken>,
    pos: nat,
    min_prec: nat,
    depth: nat,
)
    requires
        min_prec <= 7,
    ensures
        expression(ts, pos, min_prec, depth) matches Ok((node, len)) ==> {
            &&& len >= 1
            &&& pos + len <= ts.len()
            &&& node.well_formed()
            &&& grouped(node)
            &&& spelled(node) == ts.subrange(pos as int, pos + len as int)
            &&& binding(node) >= min_prec
            &&& stops(ts, pos + len, min_prec)
        },
{
    lemma_expression_reads(ts, pos, min_prec, depth);
}

/// `ts` without the end-of-stream marker that may end it.
pub open spec fn without_end(ts: Seq<SpecToken>) -> Seq<SpecToken> {
    if ts.len() > 0 && ts.last() == SpecToken::EOF {
        ts.drop_last()
    } else {
        ts
    }
}

/// The tree of a run of tokens spells all of them but the end-of-stream marker,
/// and its operators are grouped by level and to the left.
pub proof fn law_tree_reads_all_tokens(ts: Seq<SpecToken>)
    ensures
        tree_of(ts) matches Ok(node) ==> {
            &&& node.well_formed()
            &&& grouped(node)
            &&& spelled(node) == without_end(ts)
        },
{
    lemma_expression_reads(ts, 0, LOWEST as nat, 0);
    match expression(ts, 0, LOWEST as nat, 0) {
        Ok((node, len)) => {
            if tree_of(ts) is Ok {
                if len < ts.len() && ts[len as int] == SpecToken::EOF {
                    assert(ts.subrange(0, len as int) =~= ts.drop_last());
                } else {
                    assert(ts.subrange(0, len as int) =~= ts);
                    if ts.last() == SpecToken::EOF {
                        // The last token is part of the expression, which no
                        // end-of-stream marker can be.
                        lemma_no_end_in_spelling(node, len - 1);
                    }
                }
            }
        },
        Err(_) => {},
    }
}

/// A well-formed tree spells no end-of-stream marker.
pub proof fn lemma_no_end_in_spelling(node: SpecNode, i: int)
    requires
        node.well_formed(),
        0 <= i < spelled(node).len(),
    ensures
        spelled(node)[i] != SpecToken::EOF,
    decreases node,
{
    match node.entry {
        SpecGrammar::Paren => {
            let inner = spelled(node.children[0]);
            if 1 <= i <= inner.len() {
                lemma_no_end_in_spelling(node.children[0], i - 1);
            }
        },
        SpecGrammar::Unary(_) => {
            if i >= 1 {
                lemma_no_end_in_spelling(node.children[0], i - 1);
            }
        },
        SpecGrammar::Binary(_) => {
            let left = spelled(node.children[0]);
            if i < left.len() {
                lemma_no_end_in_spelling(node.children[0], i);
            } else if i > left.len() {
                lemma_no_end_in_spelling(node.children[1], i - left.len() - 1);
            }
        },
        _ => {},
    }
}

/// How deep parentheses and prefix operators nest in `node`.
pub open spec fn nesting(node: SpecNode) -> nat
    decreases node,
{
    match node.entry {
        SpecGrammar::Paren | SpecGrammar::Unary(_) => if node.children.len() == 1 {
            1 + nesting(node.children[0])
        } else {
            1
        },
        SpecGrammar::Binary(_) => if node.children.len() == 2 {
            if nesting(node.children[0]) >= nesting(node.children[1]) {
                nesting(node.children[0])
            } else {
                nesting(node.children[1])
            }
        } else {
            0
        },
        _ => 0,
    }
}

/// A primary read below `depth` levels nests within what is left of [`MAX_DEPTH`].
proof fn lemma_primary_nesting(ts: Seq<SpecToken>, pos: nat, depth: nat)
    requires
        depth <= MAX_DEPTH,
    ensures
        primary(ts, pos, depth) matches Ok((node, _)) ==> depth + nesting(node) <= MAX_DEPTH,
    decreases remaining(ts, pos), 1nat,
{
    if pos < ts.len() && ts[pos as int] == SpecToken::LParen {
        if depth < MAX_DEPTH {
            lemma_expression_nesting(ts, pos + 1, LOWEST as nat, depth + 1);
            match expression(ts, pos + 1, LOWEST as nat, depth + 1) {
                Ok((inner, _)) => {
                    assert(SpecNode::group(inner).children[0] == inner);
                },
                Err(_) => {},
            }
        }
    }
}

/// An operand read below `depth` levels nests within what is left of [`MAX_DEPTH`].
proof fn lemma_operand_nesting(ts: Seq<SpecToken>, pos: nat, depth: nat)
    requires
        depth <= MAX_DEPTH,
    ensures
        operand(ts, pos, depth) matches Ok((node, _)) ==> depth + nesting(node) <= MAX_DEPTH,
    decreases remaining(ts, pos), 2nat,
{
    if pos < ts.len() && unary_op(ts[pos as int]) is Some {
        if depth < MAX_DEPTH {
            lemma_operand_nesting(ts, pos + 1, depth + 1);
            match operand(ts, pos + 1, depth + 1) {
                Ok((inner, _)) => {
                    let node = SpecNode::unary(unary_op(ts[pos as int]).unwrap(), inner);
                    assert(node.children[0] == inner);
                },
                Err(_) => {},
            }
        }
    } else {
        lemma_primary_nesting(ts, pos, depth);
    }
}

/// An expression read below `depth` levels nests within what is left of
/// [`MAX_DEPTH`].
proof fn lemma_expression_nesting(ts: Seq<SpecToken>, pos: nat, min_prec: nat, depth: nat)
    requires
        depth <= MAX_DEPTH,
    ensures
        expression(ts, pos, min_prec, depth) matches Ok((node, _)) ==> depth + nesting(node)
            <= MAX_DEPTH,
    decreases remaining(ts, pos), 3nat,
{
    lemma_operand_nesting(ts, pos, depth);
    match operand(ts, pos, depth) {
        Ok((left, len)) => {
            lemma_continuation_nesting(ts, left, pos + len, min_prec, depth);
        },
        Err(_) => {},
    }
}

/// Applying operators adds no nesting beyond that of the operands.
proof fn lemma_continuation_nesting(
    ts: Seq<SpecToken>,
    left: SpecNode,
    pos: nat,
    min_prec: nat,
    depth: nat,
)
    requires
        depth + nesting(left) <= MAX_DEPTH,
    ensures
        continuation(ts, left, pos, min_prec, depth) matches Ok((node, _)) ==> depth + nesting(
            node,
        ) <= MAX_DEPTH,
    decreases remaining(ts, pos), 0nat,
{
    if pos < ts.len() && binary_op(ts[pos as int]) is Some && precedence(
        binary_op(ts[pos as int]).unwrap(),
    ) >= min_prec {
        let op = binary_op(ts[pos as int]).unwrap();
        lemma_expression_nesting(ts, pos + 1, precedence(op) + 1, depth);
        match expression(ts, pos + 1, precedence(op) + 1, depth) {
            Ok((right, len)) => {
                let node = SpecNode::binary(op, left, right);
                assert(node.children[0] == left);
                assert(node.children[1] == right);
                lemma_continuation_nesting(ts, node, pos + 1 + len, min_prec, depth);
            },
            Err(_) => {},
        }
    }
}

/// In a tree that the parser builds, parentheses and prefix operators nest no deeper
/// than [`MAX_DEPTH`].
pub proof fn law_nesting_is_bounded(ts: Seq<SpecToken>)
    ensures
        tree_of(ts) matches Ok(node) ==> nesting(node) <= MAX_DEPTH,
{
    lemma_expression_nesting(ts, 0, LOWEST as nat, 0);
}

/// An error of the parser points into the tokens: an unexpected token is the token
/// at the index it comes with; reading an expression reports neither trailing input
/// nor an error of the scanner.
pub open spec fn points_into(ts: Seq<SpecToken>, r: Parsed) -> bool {
    r matches Err(e) ==> match e {
        SpecParseError::UnexpectedToken { found, pos } => pos < ts.len() && ts[pos as int]
            == found,
        SpecParseError::UnexpectedEOF | SpecParseError::NestingTooDeep => true,
        SpecParseError::TrailingInput(_) | SpecParseError::Lex(_) => false,
    }
}

/// An error of reading a primary points into the tokens.
proof fn lemma_primary_errors(ts: Seq<SpecToken>, pos: nat, depth: nat)
    ensures
        points_into(ts, primary(ts, pos, depth)),
    decreases remaining(ts, pos), 1nat,
{
    if pos < ts.len() && ts[pos as int] == SpecToken::LParen && depth < MAX_DEPTH {
        lemma_expression_errors(ts, pos + 1, LOWEST as nat, depth + 1);
    }
}

/// An error of reading an operand points into the tokens.
proof fn lemma_operand_errors(ts: Seq<SpecToken>, pos: nat, depth: nat)
    ensures
        points_into(ts, operand(ts, pos, depth)),
    decreases remaining(ts, pos), 2nat,
{
    if pos < ts.len() && unary_op(ts[pos as int]) is Some {
        if depth < MAX_DEPTH {
            lemma_operand_errors(ts, pos + 1, depth + 1);
        }
    } else {
        lemma_primary_errors(ts, pos, depth);
    }
}

/// An error of reading an expression points into the tokens.
proof fn lemma_expression_errors(ts: Seq<SpecToken>, pos: nat, min_prec: nat, depth: nat)
    ensures
        points_into(ts, expression(ts, pos, min_prec, depth)),
    decreases remaining(ts, pos), 3nat,
{
    lemma_operand_errors(ts, pos, depth);
    match operand(ts, pos, depth) {
        Ok((left, len)) => {
            lemma_continuation_errors(ts, left, pos + len, min_prec, depth);
        },
        Err(_) => {},
    }
}

/// An error of applying operators points into the tokens.
proof fn lemma_continuation_errors(
    ts: Seq<SpecToken>,
    left: SpecNode,
    pos: nat,
    min_prec: nat,
    depth: nat,
)
    ensures
        points_into(ts, continuation(ts, left, pos, min_prec, depth)),
    decreases remaining(ts, pos), 0nat,
{
    if pos < ts.len() && binary_op(ts[pos as int]) is Some && precedence(
        binary_op(ts[pos as int]).unwrap(),
    ) >= min_prec {
        let op = binary_op(ts[pos as int]).unwrap();
        lemma_expression_errors(ts, pos + 1, precedence(op) + 1, depth);
        match expression(ts, pos + 1, precedence(op) + 1, depth) {
            Ok((right, len)) => {
                lemma_continuation_errors(
                    ts,
                    SpecNode::binary(op, left, right),
                    pos + 1 + len,
                    min_prec,
                    depth,
                );
            },
            Err(_) => {},
        }
    }
}

/// An error of parsing a run of tokens carries what it is about: an unexpected
/// token is the token at the index it comes with, and trailing input begins at a
/// token that is there.
pub proof fn law_errors_point_into_tokens(ts: Seq<SpecToken>)
    ensures
        tree_of(ts) matches Err(e) ==> match e {
            SpecParseError::UnexpectedToken { found, pos } => pos < ts.len() && ts[pos as int]
                == found,
            SpecParseError::TrailingInput(pos) => pos < ts.len(),
            SpecParseError::UnexpectedEOF | SpecParseError::NestingTooDeep => true,
            SpecParseError::Lex(_) => false,
        },
{
    lemma_expression_errors(ts, 0, LOWEST as nat, 0);
    lemma_expression_reads(ts, 0, LOWEST as nat, 0);
}

} // verus!
