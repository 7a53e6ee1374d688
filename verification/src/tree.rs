//! The syntax tree: what a node is and how nodes are put together.

use vstd::prelude::*;

verus! {

/// The operators that take one operand.
#[derive(Debug, Clone, Copy, PartialEq, Eq)]
pub enum UnaryOp {
    /// `-`
    Neg,
    /// `!`
    Not,
}

/// The operators that take two operands.
#[derive(Debug, Clone, Copy, PartialEq, Eq)]
pub enum BinaryOp {
    /// `|`
    Or,
    /// `&`
    And,
    /// `==`
    Equal,
    /// `!=`
    NotEqual,
    /// `<`
    Less,
    /// `>`
    Greater,
    /// `<-`
    LArrow,
    /// `->`
    RArrow,
    /// `+`
    Add,
    /// `-`
    Sub,
    /// `*`
    Mul,
    /// `/`
    Div,
    /// `%`
    Rem,
}

/// What a node of the syntax tree is. A floating literal keeps its digits as written.
#[derive(Debug, PartialEq)]
pub enum Grammar {
    Number(i64),
    Float(String),
    String(String),
    Paren,
    Identifier(String),
    Unary(UnaryOp),
    Binary(BinaryOp),
}

/// The mathematical value of a [`Grammar`].
pub enum SpecGrammar {
    Number(i64),
    Float(Seq<char>),
    String(Seq<char>),
    Paren,
    Identifier(Seq<char>),
    Unary(UnaryOp),
    Binary(BinaryOp),
}

/// A node of the syntax tree with the nodes below it, in order.
#[derive(Debug, PartialEq)]
pub struct ParseNode {
    pub children: Vec<ParseNode>,
    pub entry: Grammar,
}

/// The mathematical value of a [`ParseNode`].
pub struct SpecNode {
    pub children: Seq<SpecNode>,
    pub entry: SpecGrammar,
}

impl View for Grammar {
    type V = SpecGrammar;

    open spec fn view(&self) -> SpecGrammar {
        match self {
            Grammar::Number(n) => SpecGrammar::Number(*n),
            Grammar::Float(s) => SpecGrammar::Float(s@),
            Grammar::String(s) => SpecGrammar::String(s@),
            Grammar::Paren => SpecGrammar::Paren,
            Grammar::Identifier(s) => SpecGrammar::Identifier(s@),
            Grammar::Unary(op) => SpecGrammar::Unary(*op),
            Grammar::Binary(op) => SpecGrammar::Binary(*op),
        }
    }
}

impl Clone for Grammar {
    fn clone(&self) -> (copy: Self)
        ensures
            copy@ == self@,
    {
        match self {
            Grammar::Number(n) => Grammar::Number(*n),
            Grammar::Float(s) => Grammar::Float(s.clone()),
            Grammar::String(s) => Grammar::String(s.clone()),
            Grammar::Paren => Grammar::Paren,
            Grammar::Identifier(s) => Grammar::Identifier(s.clone()),
            Grammar::Unary(op) => Grammar::Unary(*op),
            Grammar::Binary(op) => Grammar::Binary(*op),
        }
    }
}

impl SpecGrammar {
    /// How many children a node of this kind has.
    pub open spec fn arity(self) -> nat {
        match self {
            SpecGrammar::Paren | SpecGrammar::Unary(_) => 1,
            SpecGrammar::Binary(_) => 2,
            _ => 0,
        }
    }
}

impl SpecNode {
    /// A node without children.
    pub open spec fn leaf(entry: SpecGrammar) -> SpecNode {
        SpecNode { children: Seq::empty(), entry }
    }

    /// A parenthesised expression.
    pub open spec fn group(inner: SpecNode) -> SpecNode {
        SpecNode { children: seq![inner], entry: SpecGrammar::Paren }
    }

    /// `op` applied to `operand`.
    pub open spec fn unary(op: UnaryOp, operand: SpecNode) -> SpecNode {
        SpecNode { children: seq![operand], entry: SpecGrammar::Unary(op) }
    }

    /// `op` applied to `left` and `right`.
    pub open spec fn binary(op: BinaryOp, left: SpecNode, right: SpecNode) -> SpecNode {
        SpecNode { children: seq![left, right], entry: SpecGrammar::Binary(op) }
    }

    /// Every node of the tree has as many children as its kind asks for.
    pub open spec fn well_formed(self) -> bool
        decreases self,
    {
        &&& self.children.len() == self.entry.arity()
        &&& forall|i: int|
            0 <= i < self.children.len() ==> (#[trigger] self.children[i]).well_formed()
    }
}

impl ParseNode {
    /// The value of the tree below and including this node.
    pub open spec fn model(&self) -> SpecNode
        decreases self,
    {
        SpecNode {
            children: Seq::new(
                self.children@.len(),
                |i: int|
                    if 0 <= i < self.children@.len() {
                        self.children@[i].model()
                    } else {
                        arbitrary()
                    },
            ),
            entry: self.entry@,
        }
    }

    /// An empty group: a node of kind `Paren` that has no child yet.
    pub fn new() -> (node: ParseNode)
        ensures
            node@ == SpecNode::leaf(SpecGrammar::Paren),
    {
        let node = ParseNode { children: Vec::new(), entry: Grammar::Paren };
        assert(node@.children =~= Seq::empty());
        node
    }

    /// A node without children.
    pub fn leaf(entry: Grammar) -> (node: ParseNode)
        ensures
            node@ == SpecNode::leaf(entry@),
    {
        let node = ParseNode { children: Vec::new(), entry };
        assert(node@.children =~= Seq::empty());
        node
    }

    /// A parenthesised expression.
    pub fn group(inner: ParseNode) -> (node: ParseNode)
        ensures
            node@ == SpecNode::group(inner@),
    {
        let mut children: Vec<ParseNode> = Vec::new();
        children.push(inner);
        let node = ParseNode { children, entry: Grammar::Paren };
        assert(node@.children =~= seq![inner@]);
        node
    }

    /// `op` applied to `operand`.
    pub fn unary(op: UnaryOp, operand: ParseNode) -> (node: ParseNode)
        ensures
            node@ == SpecNode::unary(op, operand@),
    {
        let mut children: Vec<ParseNode> = Vec::new();
        children.push(operand);
        let node = ParseNode { children, entry: Grammar::Unary(op) };
        assert(node@.children =~= seq![operand@]);
        node
    }

    /// `op` applied to `left` and `right`.
    pub fn binary(op: BinaryOp, left: ParseNode, right: ParseNode) -> (node: ParseNode)
        ensures
            node@ == SpecNode::binary(op, left@, right@),
    {
        let mut children: Vec<ParseNode> = Vec::new();
        children.push(left);
        children.push(right);
        let node = ParseNode { children, entry: Grammar::Binary(op) };
        assert(node@.children =~= seq![left@, right@]);
        node
    }
}

impl View for ParseNode {
    type V = SpecNode;

    open spec fn view(&self) -> SpecNode {
        self.model()
    }
}

impl Clone for ParseNode {
    fn clone(&self) -> (copy: Self)
        ensures
            copy@ == self@,
        decreases self,
    {
        let mut children: Vec<ParseNode> = Vec::new();
        let mut i: usize = 0;
        while i < self.children.len()
            invariant
                i <= self.children.len(),
                children@.len() == i,
                forall|j: int| 0 <= j < i ==> children@[j]@ == self.children@[j]@,
            decreases self.children.len() - i,
        {
            children.push(self.children[i].clone());
            i += 1;
        }
        let copy = ParseNode { children, entry: self.entry.clone() };
        assert(copy@.children =~= self@.children);
        copy
    }
}

} // verus!
