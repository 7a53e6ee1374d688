//! The parser reads back every tree that can be written down.
//!
//! [`crate::parser_laws`] shows that a tree which the parser builds spells the
//! tokens it was built from, is well-formed and has its operators grouped by level
//! and to the left. This module shows the converse: whatever tree is well-formed and
//! so grouped, and nests no deeper than the parser allows, the parser builds exactly
//! that tree from the tokens which spell it. So the parser and [`spelled`] undo each
//! other, and the grouping is what tells the tree of an expression from the other
//! trees with the same spelling.

use vstd::prelude::*;
use crate::parser::{
    advance,
    binary_op,
    continuation,
    expression,
    leaf_entry,
    operand,
    precedence,
    primary,
    tree_of,
    unary_op,
    Parsed,
    SpecParseError,
    LOWEST,
    MAX_DEPTH,
};
use crate::parser_laws::{binary_token, binding, grouped, nesting, spelled, stops, unary_token};
use crate::token::SpecToken;
use crate::tree::{SpecGrammar, SpecNode};

verus! {

/// The tokens of `ts` from `pos` on begin with the spelling of `node`.
pub open spec fn spelled_at(ts: Seq<SpecToken>, node: SpecNode, pos: nat) -> bool {
    &&& pos + spelled(node).len() <= ts.len()
    &&& ts.subrange(pos as int, pos + spelled(node).len() as int) == spelled(node)
}

/// `node` is a tree that can be written down and read back below `depth` levels of
/// nesting: it is well-formed, its operators are grouped by level and to the left,
/// and it nests no deeper than is left.
pub open spec fn readable(node: SpecNode, depth: nat) -> bool {
    &&& node.well_formed()
    &&& grouped(node)
    &&& depth + nesting(node) <= MAX_DEPTH
}

/// Every tree is spelled with at least one token.
pub proof fn lemma_spelling_is_not_empty(node: SpecNode)
    ensures
        spelled(node).len() >= 1,
{
}

/// The children of a readable tree are readable, a level deeper where the tree is
/// a group or a prefix operation.
proof fn lemma_children_are_readable(node: SpecNode, depth: nat)
    requires
        readable(node, depth),
    ensures
        node.entry is Paren || node.entry is Unary ==> node.children.len() == 1 && readable(
            node.children[0],
            depth + 1,
        ),
        node.entry is Binary ==> node.children.len() == 2 && readable(node.children[0], depth)
            && readable(node.children[1], depth),
{
    if node.children.len() >= 1 {
        assert(node.children[0].well_formed());
        assert(grouped(node.children[0]));
    }
    if node.children.len() >= 2 {
        assert(node.children[1].well_formed());
        assert(grouped(node.children[1]));
    }
}

/// The parser reads back a tree that is no bare binary operation as one operand.
proof fn lemma_operand_reads_back(ts: Seq<SpecToken>, node: SpecNode, pos: nat, depth: nat)
    requires
        readable(node, depth),
        binding(node) == 7,
        spelled_at(ts, node, pos),
    ensures
        operand(ts, pos, depth) == Ok::<(SpecNode, nat), SpecParseError>(
            (node, spelled(node).len()),
        ),
    decreases node, 0nat,
{
    let text = spelled(node);
    let len = text.len() as int;
    let p = pos as int;
    lemma_children_are_readable(node, depth);
    assert(ts[p] == text[0]);
    match node.entry {
        SpecGrammar::Paren => {
            let inner = node.children[0];
            let n = spelled(inner).len() as int;
            assert(text[len - 1] == SpecToken::RParen);
            assert(ts[p + 1 + n] == text[len - 1]);
            assert(ts.subrange(p + 1, p + 1 + n) =~= spelled(inner)) by {
                assert(text.subrange(1, 1 + n) =~= spelled(inner));
                assert(ts.subrange(p + 1, p + 1 + n) =~= text.subrange(1, 1 + n));
            }
            lemma_expression_reads_back(ts, inner, pos + 1, LOWEST as nat, depth + 1);
            assert(continuation(
                ts,
                inner,
                pos + 1 + spelled(inner).len(),
                LOWEST as nat,
                depth + 1,
            ) == Ok::<(SpecNode, nat), SpecParseError>((inner, 0)));
            assert(expression(ts, pos + 1, LOWEST as nat, depth + 1) == Ok::<
                (SpecNode, nat),
                SpecParseError,
            >((inner, spelled(inner).len())));
            assert(node.children =~= seq![inner]);
            assert(node == SpecNode::group(inner));
            assert(primary(ts, pos, depth) == Ok::<(SpecNode, nat), SpecParseError>(
                (node, spelled(node).len()),
            ));
        },
        SpecGrammar::Unary(op) => {
            let inner = node.children[0];
            let n = spelled(inner).len() as int;
            assert(ts.subrange(p + 1, p + 1 + n) =~= spelled(inner)) by {
                assert(text.subrange(1, 1 + n) =~= spelled(inner));
                assert(ts.subrange(p + 1, p + 1 + n) =~= text.subrange(1, 1 + n));
            }
            lemma_operand_reads_back(ts, inner, pos + 1, depth + 1);
            assert(node.children =~= seq![inner]);
            assert(node == SpecNode::unary(op, inner));
        },
        SpecGrammar::Binary(_) => {},
        _ => {
            assert(node.children =~= Seq::<SpecNode>::empty());
            assert(node == SpecNode::leaf(node.entry));
        },
    }
}

/// The parser reads back a tree and goes on from where the tree ends, provided that
/// the tree binds at least as tightly as asked and that no operator follows which
/// binds tighter than the tree itself.
proof fn lemma_expression_reads_back(
    ts: Seq<SpecToken>,
    node: SpecNode,
    pos: nat,
    min_prec: nat,
    depth: nat,
)
    requires
        readable(node, depth),
        min_prec <= binding(node),
        spelled_at(ts, node, pos),
        stops(ts, pos + spelled(node).len(), binding(node) + 1),
    ensures
        expression(ts, pos, min_prec, depth) == advance(
            spelled(node).len(),
            continuation(ts, node, pos + spelled(node).len(), min_prec, depth),
        ),
    decreases node, 1nat,
{
    let text = spelled(node);
    lemma_children_are_readable(node, depth);
    match node.entry {
        SpecGrammar::Binary(op) => {
            let left = node.children[0];
            let right = node.children[1];
            let m = spelled(left).len() as int;
            let n = spelled(right).len() as int;
            let p = pos as int;
            let at = pos + spelled(left).len();
            assert(ts.subrange(p, p + m) =~= spelled(left)) by {
                assert(text.subrange(0, m) =~= spelled(left));
                assert(ts.subrange(p, p + m) =~= text.subrange(0, m));
            }
            assert(ts[p + m] == text[m]);
            assert(ts[p + m] == binary_token(op));
            assert(ts.subrange(p + m + 1, p + m + 1 + n) =~= spelled(right)) by {
                assert(text.subrange(m + 1, m + 1 + n) =~= spelled(right));
                assert(ts.subrange(p + m + 1, p + m + 1 + n) =~= text.subrange(m + 1, m + 1 + n));
            }
            // The left operand, and the operator after it.
            lemma_expression_reads_back(ts, left, pos, min_prec, depth);
            // The right operand, which ends where the tree ends.
            lemma_expression_reads_back(ts, right, at + 1, precedence(op) + 1, depth);
            assert(continuation(
                ts,
                right,
                at + 1 + spelled(right).len(),
                precedence(op) + 1,
                depth,
            ) == Ok::<(SpecNode, nat), SpecParseError>((right, 0)));
            assert(node.children =~= seq![left, right]);
            assert(node == SpecNode::binary(op, left, right));
        },
        _ => {
            lemma_operand_reads_back(ts, node, pos, depth);
        },
    }
}

/// The parser reads back every readable tree from its spelling, with or without
/// the end-of-stream marker after it.
pub proof fn law_parser_reads_back(node: SpecNode)
    requires
        readable(node, 0),
    ensures
        tree_of(spelled(node)) == Ok::<SpecNode, SpecParseError>(node),
        tree_of(spelled(node).push(SpecToken::EOF)) == Ok::<SpecNode, SpecParseError>(node),
{
    let text = spelled(node);
    let ended = text.push(SpecToken::EOF);
    assert(text.subrange(0, text.len() as int) =~= text);
    assert(ended.subrange(0, text.len() as int) =~= text);
    lemma_expression_reads_back(text, node, 0, LOWEST as nat, 0);
    lemma_expression_reads_back(ended, node, 0, LOWEST as nat, 0);
}

/// No two readable trees are spelled alike: the grouping of its operators tells
/// the tree of an expression from every other tree with the same tokens.
pub proof fn law_spelling_tells_trees_apart(a: SpecNode, b: SpecNode)
    requires
        readable(a, 0),
        readable(b, 0),
        spelled(a) == spelled(b),
    ensures
        a == b,
{
    law_parser_reads_back(a);
    law_parser_reads_back(b);
}

} // verus!
