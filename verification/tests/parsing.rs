use front_end::{
    lex, parse, parse_chars, parse_expr, parse_tokens, classify_str, BinaryOp, Grammar, LexError,
    ParseError, ParseNode, Token, UnaryOp, MAX_DEPTH,
};

fn num(n: i64) -> ParseNode {
    ParseNode::leaf(Grammar::Number(n))
}

fn var(name: &str) -> ParseNode {
    ParseNode::leaf(Grammar::Identifier(name.to_string()))
}

fn bin(op: BinaryOp, left: ParseNode, right: ParseNode) -> ParseNode {
    ParseNode::binary(op, left, right)
}

fn tree(source: &str) -> Result<ParseNode, ParseError> {
    parse(&source.to_string())
}

#[test]
fn parentheses_group_before_multiplication() {
    let expected = bin(
        BinaryOp::Mul,
        ParseNode::group(bin(BinaryOp::Add, num(1), num(2))),
        num(3),
    );
    assert_eq!(tree("(1+2)*3"), Ok(expected));
}

#[test]
fn parenthesised_tree_has_the_expected_shape() {
    let root = tree("(1+2)*3").unwrap();
    assert_eq!(root.entry, Grammar::Binary(BinaryOp::Mul));
    assert_eq!(root.children.len(), 2);
    let group = &root.children[0];
    assert_eq!(group.entry, Grammar::Paren);
    assert_eq!(group.children.len(), 1);
    let sum = &group.children[0];
    assert_eq!(sum.entry, Grammar::Binary(BinaryOp::Add));
    assert_eq!(sum.children.len(), 2);
    assert_eq!(sum.children[0].entry, Grammar::Number(1));
    assert!(sum.children[0].children.is_empty());
    assert_eq!(sum.children[1].entry, Grammar::Number(2));
    assert_eq!(root.children[1].entry, Grammar::Number(3));
    // All seven tokens and the end-of-stream marker were consumed.
    let tokens = lex("(1+2)*3").unwrap();
    assert_eq!(tokens.len(), 8);
    assert_eq!(parse_expr(&tokens, 0).map(|(_, next)| next), Ok(7));
}

#[test]
fn two_primaries_without_an_operator_leave_trailing_input() {
    assert_eq!(tree("1 2"), Err(ParseError::TrailingInput(1)));
}

#[test]
fn multiplication_binds_tighter_than_addition() {
    assert_eq!(
        tree("1+2*3"),
        Ok(bin(BinaryOp::Add, num(1), bin(BinaryOp::Mul, num(2), num(3))))
    );
    assert_eq!(
        tree("1*2+3"),
        Ok(bin(BinaryOp::Add, bin(BinaryOp::Mul, num(1), num(2)), num(3)))
    );
}

#[test]
fn operators_of_one_level_group_to_the_left() {
    assert_eq!(
        tree("1-2-3"),
        Ok(bin(BinaryOp::Sub, bin(BinaryOp::Sub, num(1), num(2)), num(3)))
    );
    assert_eq!(
        tree("8/4%3*2"),
        Ok(bin(
            BinaryOp::Mul,
            bin(BinaryOp::Rem, bin(BinaryOp::Div, num(8), num(4)), num(3)),
            num(2)
        ))
    );
    assert_eq!(
        tree("a == b != c"),
        Ok(bin(BinaryOp::NotEqual, bin(BinaryOp::Equal, var("a"), var("b")), var("c")))
    );
}

#[test]
fn every_level_binds_tighter_than_the_one_before() {
    // a | b & c == d < e + f * g
    let expected = bin(
        BinaryOp::Or,
        var("a"),
        bin(
            BinaryOp::And,
            var("b"),
            bin(
                BinaryOp::Equal,
                var("c"),
                bin(
                    BinaryOp::Less,
                    var("d"),
                    bin(BinaryOp::Add, var("e"), bin(BinaryOp::Mul, var("f"), var("g"))),
                ),
            ),
        ),
    );
    assert_eq!(tree("a | b & c == d < e + f * g"), Ok(expected));
    // The same operators the other way round group from the left.
    let reversed = bin(
        BinaryOp::Or,
        bin(
            BinaryOp::And,
            bin(
                BinaryOp::Equal,
                bin(
                    BinaryOp::Less,
                    bin(BinaryOp::Add, bin(BinaryOp::Mul, var("a"), var("b")), var("c")),
                    var("d"),
                ),
                var("e"),
            ),
            var("f"),
        ),
        var("g"),
    );
    assert_eq!(tree("a * b + c < d == e & f | g"), Ok(reversed));
}

#[test]
fn arrows_are_relational() {
    assert_eq!(
        tree("a + 1 -> b"),
        Ok(bin(BinaryOp::RArrow, bin(BinaryOp::Add, var("a"), num(1)), var("b")))
    );
    assert_eq!(
        tree("a <- b == c > d"),
        Ok(bin(
            BinaryOp::Equal,
            bin(BinaryOp::LArrow, var("a"), var("b")),
            bin(BinaryOp::Greater, var("c"), var("d"))
        ))
    );
}

#[test]
fn prefix_operators_bind_tightest() {
    assert_eq!(
        tree("-1*2"),
        Ok(bin(BinaryOp::Mul, ParseNode::unary(UnaryOp::Neg, num(1)), num(2)))
    );
    assert_eq!(
        tree("!a == b"),
        Ok(bin(BinaryOp::Equal, ParseNode::unary(UnaryOp::Not, var("a")), var("b")))
    );
    assert_eq!(
        tree("1 - -2"),
        Ok(bin(BinaryOp::Sub, num(1), ParseNode::unary(UnaryOp::Neg, num(2))))
    );
    assert_eq!(
        tree("-!-x"),
        Ok(ParseNode::unary(
            UnaryOp::Neg,
            ParseNode::unary(UnaryOp::Not, ParseNode::unary(UnaryOp::Neg, var("x")))
        ))
    );
    assert_eq!(
        tree("-(1+2)"),
        Ok(ParseNode::unary(
            UnaryOp::Neg,
            ParseNode::group(bin(BinaryOp::Add, num(1), num(2)))
        ))
    );
}

#[test]
fn every_kind_of_leaf_parses() {
    assert_eq!(tree("42"), Ok(num(42)));
    assert_eq!(tree("x"), Ok(var("x")));
    assert_eq!(tree("2.5"), Ok(ParseNode::leaf(Grammar::Float("2.5".to_string()))));
    assert_eq!(tree("\"hi\""), Ok(ParseNode::leaf(Grammar::String("hi".to_string()))));
    assert_eq!(tree("((7))"), Ok(ParseNode::group(ParseNode::group(num(7)))));
}

#[test]
fn input_that_ends_too_soon_is_an_unexpected_end() {
    assert_eq!(tree(""), Err(ParseError::UnexpectedEOF));
    assert_eq!(tree("1+"), Err(ParseError::UnexpectedEOF));
    assert_eq!(tree("-"), Err(ParseError::UnexpectedEOF));
    assert_eq!(tree("("), Err(ParseError::UnexpectedEOF));
    assert_eq!(tree("(1+"), Err(ParseError::UnexpectedEOF));
    assert_eq!(parse_tokens(&[]), Err(ParseError::UnexpectedEOF));
    assert_eq!(parse_tokens(&[Token::Number(1), Token::Plus]), Err(ParseError::UnexpectedEOF));
    assert_eq!(
        parse_tokens(&[Token::LParen, Token::Number(1)]),
        Err(ParseError::UnexpectedEOF)
    );
}

#[test]
fn a_group_must_be_closed() {
    assert_eq!(
        tree("(1+2"),
        Err(ParseError::UnexpectedToken { found: Token::EOF, pos: 4 })
    );
    assert_eq!(
        tree("(1+2]"),
        Err(ParseError::UnexpectedToken { found: Token::RSquareBracket, pos: 4 })
    );
    assert_eq!(
        tree("((1)"),
        Err(ParseError::UnexpectedToken { found: Token::EOF, pos: 4 })
    );
}

#[test]
fn a_token_out_of_place_is_reported_with_its_index() {
    assert_eq!(
        tree("*1"),
        Err(ParseError::UnexpectedToken { found: Token::Multiply, pos: 0 })
    );
    assert_eq!(
        tree("(1 2)"),
        Err(ParseError::UnexpectedToken { found: Token::Number(2), pos: 2 })
    );
    assert_eq!(
        tree("1 + )"),
        Err(ParseError::UnexpectedToken { found: Token::RParen, pos: 2 })
    );
    assert_eq!(
        tree("true"),
        Err(ParseError::UnexpectedToken { found: Token::True, pos: 0 })
    );
    assert_eq!(
        tree("  1"),
        Err(ParseError::UnexpectedToken { found: Token::Indent, pos: 0 })
    );
    assert_eq!(
        tree("(a\n)"),
        Err(ParseError::UnexpectedToken { found: Token::Newl, pos: 2 })
    );
}

#[test]
fn tokens_after_the_expression_are_trailing_input() {
    assert_eq!(tree("1 )"), Err(ParseError::TrailingInput(1)));
    assert_eq!(tree("a = 1"), Err(ParseError::TrailingInput(1)));
    assert_eq!(tree("1\n"), Err(ParseError::TrailingInput(1)));
    assert_eq!(tree("1 + 2 3"), Err(ParseError::TrailingInput(3)));
    assert_eq!(
        parse_tokens(&[Token::Number(1), Token::EOF, Token::Number(2)]),
        Err(ParseError::TrailingInput(2))
    );
}

#[test]
fn scanner_errors_are_wrapped() {
    assert_eq!(tree("\"abc"), Err(ParseError::Lex(LexError::UnterminatedString)));
    assert_eq!(tree("1 + $"), Err(ParseError::Lex(LexError::UnexpectedChar('$', 4))));
    assert_eq!(
        tree("99999999999999999999"),
        Err(ParseError::Lex(LexError::NumberOutOfRange))
    );
    assert_eq!(tree("a\n    b\n  c"), Err(ParseError::Lex(LexError::InconsistentIndent)));
}

#[test]
fn nesting_is_bounded() {
    let deepest = format!("{}1{}", "(".repeat(MAX_DEPTH), ")".repeat(MAX_DEPTH));
    let mut node = &tree(&deepest).unwrap();
    let mut depth = 0;
    while node.entry == Grammar::Paren {
        node = &node.children[0];
        depth += 1;
    }
    assert_eq!(depth, MAX_DEPTH);
    assert_eq!(node.entry, Grammar::Number(1));

    let too_deep = format!("{}1{}", "(".repeat(MAX_DEPTH + 1), ")".repeat(MAX_DEPTH + 1));
    assert_eq!(tree(&too_deep), Err(ParseError::NestingTooDeep));

    assert!(tree(&format!("{}1", "-".repeat(MAX_DEPTH))).is_ok());
    assert_eq!(
        tree(&format!("{}1", "-".repeat(MAX_DEPTH + 1))),
        Err(ParseError::NestingTooDeep)
    );
    assert_eq!(
        tree(&format!("{}1", "-(".repeat(MAX_DEPTH / 2 + 1))),
        Err(ParseError::NestingTooDeep)
    );
    // Binary operators do not nest: a long chain is fine.
    let chain = format!("1{}", "+1".repeat(1000));
    assert!(tree(&chain).is_ok());
}

#[test]
fn parse_expr_returns_where_the_expression_ends() {
    let tokens = lex("1+2 3").unwrap();
    assert_eq!(
        parse_expr(&tokens, 0),
        Ok((bin(BinaryOp::Add, num(1), num(2)), 3))
    );
    assert_eq!(parse_expr(&tokens, 2), Ok((num(2), 3)));
    assert_eq!(parse_expr(&tokens, 3), Ok((num(3), 4)));
    assert_eq!(parse_expr(&tokens, 4), Err(ParseError::UnexpectedEOF));
    assert_eq!(parse_expr(&tokens, 5), Err(ParseError::UnexpectedEOF));
    assert_eq!(parse_expr(&tokens, 99), Err(ParseError::UnexpectedEOF));
    assert_eq!(
        parse_expr(&tokens, 1),
        Err(ParseError::UnexpectedToken { found: Token::Plus, pos: 1 })
    );
}

#[test]
fn tokens_need_no_end_marker() {
    assert_eq!(parse_tokens(&[Token::Number(1)]), Ok(num(1)));
    assert_eq!(parse_tokens(&[Token::Number(1), Token::EOF]), Ok(num(1)));
    assert_eq!(
        parse_tokens(&[Token::Number(1), Token::Multiply, Token::Number(2)]),
        Ok(bin(BinaryOp::Mul, num(1), num(2)))
    );
}

#[test]
fn parse_chars_agrees_with_parse() {
    for source in ["(1+2)*3", "1 2", "a | b", "\"x", ""] {
        assert_eq!(parse_chars(&classify_str(source)), tree(source));
    }
}

#[test]
fn new_node_is_an_empty_group() {
    let node = ParseNode::new();
    assert_eq!(node.entry, Grammar::Paren);
    assert!(node.children.is_empty());
}

#[test]
fn cloned_tree_is_equal() {
    let root = tree("-(a + 1.5) * \"s\" | !b").unwrap();
    assert_eq!(root.clone(), root);
    assert_eq!(root.entry.clone(), root.entry);
}

fn spell(node: &ParseNode, out: &mut Vec<Token>) {
    match &node.entry {
        Grammar::Number(n) => out.push(Token::Number(*n)),
        Grammar::Float(s) => out.push(Token::Float(s.clone())),
        Grammar::String(s) => out.push(Token::String(s.clone())),
        Grammar::Identifier(s) => out.push(Token::Identifier(s.clone())),
        Grammar::Paren => {
            out.push(Token::LParen);
            spell(&node.children[0], out);
            out.push(Token::RParen);
        }
        Grammar::Unary(op) => {
            out.push(match op {
                UnaryOp::Neg => Token::Minus,
                UnaryOp::Not => Token::Not,
            });
            spell(&node.children[0], out);
        }
        Grammar::Binary(op) => {
            spell(&node.children[0], out);
            out.push(match op {
                BinaryOp::Or => Token::Or,
                BinaryOp::And => Token::And,
                BinaryOp::Equal => Token::ComparativeEqual,
                BinaryOp::NotEqual => Token::NotEqual,
                BinaryOp::Less => Token::LessThan,
                BinaryOp::Greater => Token::GreaterThan,
                BinaryOp::LArrow => Token::LArrow,
                BinaryOp::RArrow => Token::RArrow,
                BinaryOp::Add => Token::Plus,
                BinaryOp::Sub => Token::Minus,
                BinaryOp::Mul => Token::Multiply,
                BinaryOp::Div => Token::Divide,
                BinaryOp::Rem => Token::Modulo,
            });
            spell(&node.children[1], out);
        }
    }
}

#[test]
fn a_tree_spells_the_tokens_it_was_read_from() {
    for source in [
        "1",
        "(1+2)*3",
        "a | b & c == d < e + f * g",
        "-(-x) % 2.5 -> !y",
        "((a)) * (b - (c / d)) != \"s\"",
    ] {
        let mut tokens = lex(source).unwrap();
        let root = parse_tokens(&tokens).unwrap();
        let mut spelled = Vec::new();
        spell(&root, &mut spelled);
        assert_eq!(tokens.pop(), Some(Token::EOF));
        assert_eq!(spelled, tokens, "for {:?}", source);
    }
}

#[test]
fn deepest_nesting_below_every_level_of_operator_parses() {
    // Each parenthesis stands to the right of one operator of every level.
    let source = format!(
        "{}1{}",
        "a|a&a==a<a+a*-(".repeat(MAX_DEPTH / 2),
        ")".repeat(MAX_DEPTH / 2)
    );
    let root = tree(&source).unwrap();
    assert_eq!(root.entry, Grammar::Binary(BinaryOp::Or));
    let one_more = format!(
        "{}1{}",
        "a|a&a==a<a+a*-(".repeat(MAX_DEPTH / 2 + 1),
        ")".repeat(MAX_DEPTH / 2 + 1)
    );
    assert_eq!(tree(&one_more), Err(ParseError::NestingTooDeep));
    let parens_only = format!(
        "{}1{}",
        "a|a&a==a<a+a*(".repeat(MAX_DEPTH),
        ")".repeat(MAX_DEPTH)
    );
    assert!(tree(&parens_only).is_ok());
}

#[test]
fn a_tree_is_read_back_from_its_spelling() {
    let trees = vec![
        num(7),
        ParseNode::unary(UnaryOp::Not, ParseNode::unary(UnaryOp::Neg, var("x"))),
        bin(BinaryOp::Sub, bin(BinaryOp::Sub, num(1), num(2)), num(3)),
        bin(
            BinaryOp::Sub,
            num(1),
            ParseNode::group(bin(BinaryOp::Sub, num(2), num(3))),
        ),
        bin(
            BinaryOp::Or,
            bin(BinaryOp::And, var("a"), bin(BinaryOp::Less, var("b"), var("c"))),
            bin(
                BinaryOp::Equal,
                ParseNode::unary(UnaryOp::Neg, ParseNode::group(var("d"))),
                bin(BinaryOp::Rem, ParseNode::leaf(Grammar::Float("1.5".to_string())), num(2)),
            ),
        ),
    ];
    for expected in trees {
        let mut tokens = Vec::new();
        spell(&expected, &mut tokens);
        assert_eq!(parse_tokens(&tokens), Ok(expected.clone()));
        tokens.push(Token::EOF);
        assert_eq!(parse_tokens(&tokens), Ok(expected));
    }
}

#[test]
fn a_tree_that_is_not_grouped_by_level_is_not_read_back() {
    // 1 - (2 - 3) without its parentheses spells like (1 - 2) - 3.
    let right_leaning = bin(BinaryOp::Sub, num(1), bin(BinaryOp::Sub, num(2), num(3)));
    let mut tokens = Vec::new();
    spell(&right_leaning, &mut tokens);
    assert_eq!(
        parse_tokens(&tokens),
        Ok(bin(BinaryOp::Sub, bin(BinaryOp::Sub, num(1), num(2)), num(3)))
    );
}
