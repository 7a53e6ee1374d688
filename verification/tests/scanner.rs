use front_end::{classify, classify_str, lex, lex_chars, LexError, SourceChar, Token};

fn ident(name: &str) -> Token {
    Token::Identifier(name.to_string())
}

fn float(text: &str) -> Token {
    Token::Float(text.to_string())
}

fn text(s: &str) -> Token {
    Token::String(s.to_string())
}

#[test]
fn scans_an_escaped_newline() {
    let tokens = lex("\"a\\nb\"").unwrap();
    assert_eq!(tokens, vec![text("a\nb"), Token::EOF]);
}

#[test]
fn reports_an_unterminated_string() {
    assert_eq!(lex("\"abc"), Err(LexError::UnterminatedString));
}

#[test]
fn second_point_ends_a_float() {
    let tokens = lex("1.2.3").unwrap();
    assert_eq!(tokens, vec![float("1.2"), Token::Dot, Token::Number(3), Token::EOF]);
    match &tokens[0] {
        Token::Float(digits) => assert_eq!(digits.parse::<f64>().unwrap(), 1.2),
        other => panic!("not a float: {:?}", other),
    }
}

#[test]
fn empty_source_is_just_the_end() {
    assert_eq!(lex(""), Ok(vec![Token::EOF]));
}

#[test]
fn digits_scan_as_one_number() {
    assert_eq!(lex("0"), Ok(vec![Token::Number(0), Token::EOF]));
    assert_eq!(lex("7"), Ok(vec![Token::Number(7), Token::EOF]));
    assert_eq!(lex("007"), Ok(vec![Token::Number(7), Token::EOF]));
    assert_eq!(lex("1234567890"), Ok(vec![Token::Number(1234567890), Token::EOF]));
    for n in [0i64, 9, 10, 99, 100, 4096, 65535, 1_000_000_007, i64::MAX] {
        assert_eq!(lex(&n.to_string()), Ok(vec![Token::Number(n), Token::EOF]));
    }
}

#[test]
fn largest_integer_fits_and_the_next_does_not() {
    assert_eq!(lex("9223372036854775807"), Ok(vec![Token::Number(i64::MAX), Token::EOF]));
    assert_eq!(lex("9223372036854775808"), Err(LexError::NumberOutOfRange));
    assert_eq!(lex("00009223372036854775807"), Ok(vec![Token::Number(i64::MAX), Token::EOF]));
    assert_eq!(lex("99999999999999999999999999"), Err(LexError::NumberOutOfRange));
    assert_eq!(lex("1 + 18446744073709551616"), Err(LexError::NumberOutOfRange));
}

#[test]
fn minus_is_a_token_of_its_own() {
    assert_eq!(lex("-5"), Ok(vec![Token::Minus, Token::Number(5), Token::EOF]));
}

#[test]
fn scans_every_operator_and_punctuation_mark() {
    let tokens = lex("+ - * / % ( ) { } [ ] , ; . < > = == != ! & | -> <-").unwrap();
    assert_eq!(
        tokens,
        vec![
            Token::Plus,
            Token::Minus,
            Token::Multiply,
            Token::Divide,
            Token::Modulo,
            Token::LParen,
            Token::RParen,
            Token::LBrace,
            Token::RBrace,
            Token::LSquareBracket,
            Token::RSquareBracket,
            Token::Comma,
            Token::Semicolon,
            Token::Dot,
            Token::LessThan,
            Token::GreaterThan,
            Token::Equal,
            Token::ComparativeEqual,
            Token::NotEqual,
            Token::Not,
            Token::And,
            Token::Or,
            Token::RArrow,
            Token::LArrow,
            Token::EOF,
        ]
    );
}

#[test]
fn two_character_operators_need_no_space() {
    assert_eq!(
        lex("a->b<-c==d!=e"),
        Ok(vec![
            ident("a"),
            Token::RArrow,
            ident("b"),
            Token::LArrow,
            ident("c"),
            Token::ComparativeEqual,
            ident("d"),
            Token::NotEqual,
            ident("e"),
            Token::EOF,
        ])
    );
    assert_eq!(
        lex("==="),
        Ok(vec![Token::ComparativeEqual, Token::Equal, Token::EOF])
    );
    assert_eq!(lex("-"), Ok(vec![Token::Minus, Token::EOF]));
    assert_eq!(lex("<"), Ok(vec![Token::LessThan, Token::EOF]));
    assert_eq!(lex("!"), Ok(vec![Token::Not, Token::EOF]));
    assert_eq!(lex("="), Ok(vec![Token::Equal, Token::EOF]));
    assert_eq!(lex("- >"), Ok(vec![Token::Minus, Token::GreaterThan, Token::EOF]));
}

#[test]
fn reserved_words_are_not_identifiers() {
    assert_eq!(
        lex("break do if elif goto in true false nil for pkg"),
        Ok(vec![
            Token::Break,
            Token::Do,
            Token::If,
            Token::ElseIf,
            Token::Goto,
            Token::In,
            Token::True,
            Token::False,
            Token::Nil,
            Token::For,
            Token::Package,
            Token::EOF,
        ])
    );
}

#[test]
fn words_that_are_not_reserved_are_identifiers() {
    assert_eq!(
        lex("foo _bar x1 breaker iff and or _ a_b"),
        Ok(vec![
            ident("foo"),
            ident("_bar"),
            ident("x1"),
            ident("breaker"),
            ident("iff"),
            ident("and"),
            ident("or"),
            ident("_"),
            ident("a_b"),
            Token::EOF,
        ])
    );
}

#[test]
fn letters_beyond_ascii_make_identifiers() {
    assert_eq!(lex("\u{e9}t\u{e9}"), Ok(vec![ident("\u{e9}t\u{e9}"), Token::EOF]));
    // A superscript two is numeric, not alphabetic: it continues a word and starts none.
    assert_eq!(lex("x\u{b2}"), Ok(vec![ident("x\u{b2}"), Token::EOF]));
    assert_eq!(lex("\u{b2}"), Err(LexError::UnexpectedChar('\u{b2}', 0)));
}

#[test]
fn a_number_ends_where_a_word_begins() {
    assert_eq!(lex("12ab"), Ok(vec![Token::Number(12), ident("ab"), Token::EOF]));
}

#[test]
fn whitespace_inside_a_line_separates_and_is_dropped() {
    assert_eq!(
        lex("1 \t\r 2\u{a0}3"),
        Ok(vec![Token::Number(1), Token::Number(2), Token::Number(3), Token::EOF])
    );
}

#[test]
fn newline_is_a_line_end() {
    assert_eq!(
        lex("a\nb\n"),
        Ok(vec![ident("a"), Token::Newl, ident("b"), Token::Newl, Token::EOF])
    );
}

#[test]
fn deeper_indentation_opens_a_block_and_the_end_closes_it() {
    assert_eq!(
        lex("a\n  b"),
        Ok(vec![ident("a"), Token::Newl, Token::Indent, ident("b"), Token::Dedent, Token::EOF])
    );
}

#[test]
fn first_line_may_be_indented() {
    assert_eq!(lex("  a"), Ok(vec![Token::Indent, ident("a"), Token::Dedent, Token::EOF]));
}

#[test]
fn blocks_close_one_level_at_a_time() {
    assert_eq!(
        lex("a\n  b\n    c\n  d\ne"),
        Ok(vec![
            ident("a"),
            Token::Newl,
            Token::Indent,
            ident("b"),
            Token::Newl,
            Token::Indent,
            ident("c"),
            Token::Newl,
            Token::Dedent,
            ident("d"),
            Token::Newl,
            Token::Dedent,
            ident("e"),
            Token::EOF,
        ])
    );
}

#[test]
fn one_line_may_close_several_blocks() {
    assert_eq!(
        lex("a\n  b\n    c\nd"),
        Ok(vec![
            ident("a"),
            Token::Newl,
            Token::Indent,
            ident("b"),
            Token::Newl,
            Token::Indent,
            ident("c"),
            Token::Newl,
            Token::Dedent,
            Token::Dedent,
            ident("d"),
            Token::EOF,
        ])
    );
}

#[test]
fn an_empty_line_counts_as_not_indented() {
    assert_eq!(
        lex("  a\n\n  b"),
        Ok(vec![
            Token::Indent,
            ident("a"),
            Token::Newl,
            Token::Dedent,
            Token::Newl,
            Token::Indent,
            ident("b"),
            Token::Dedent,
            Token::EOF,
        ])
    );
}

#[test]
fn closing_onto_no_open_level_is_an_error() {
    assert_eq!(lex("a\n    b\n  c"), Err(LexError::InconsistentIndent));
    assert_eq!(lex("    a\n  "), Err(LexError::InconsistentIndent));
    assert_eq!(lex("  a\n b"), Err(LexError::InconsistentIndent));
}

#[test]
fn tab_and_four_spaces_indent_alike() {
    let spaces = lex("a\n    b\nc").unwrap();
    let tab = lex("a\n\tb\nc").unwrap();
    assert_eq!(spaces, tab);
    assert_eq!(
        tab,
        vec![
            ident("a"),
            Token::Newl,
            Token::Indent,
            ident("b"),
            Token::Newl,
            Token::Dedent,
            ident("c"),
            Token::EOF,
        ]
    );
    assert_eq!(lex("    x"), lex("\tx"));
}

#[test]
fn tabs_and_spaces_mix_within_one_file() {
    // One tab and four spaces are one level; a tab and four spaces are the same
    // level as eight spaces and as two tabs.
    let mixed = lex("a\n\tb\n    c\n\t    d\n        e\n\t\tf\n    g\nh").unwrap();
    assert_eq!(
        mixed,
        vec![
            ident("a"),
            Token::Newl,
            Token::Indent,
            ident("b"),
            Token::Newl,
            ident("c"),
            Token::Newl,
            Token::Indent,
            ident("d"),
            Token::Newl,
            ident("e"),
            Token::Newl,
            ident("f"),
            Token::Newl,
            Token::Dedent,
            ident("g"),
            Token::Newl,
            Token::Dedent,
            ident("h"),
            Token::EOF,
        ]
    );
    let spaces_only = lex("a\n    b\n    c\n        d\n        e\n        f\n    g\nh").unwrap();
    assert_eq!(mixed, spaces_only);
}

#[test]
fn a_space_after_a_tab_counts_one_more_column() {
    assert_eq!(lex("a\n\t b\n     c"), lex("a\n     b\n     c"));
    assert_eq!(lex("a\n\tb\n   c"), Err(LexError::InconsistentIndent));
}

#[test]
fn unexpected_character_comes_with_its_offset() {
    assert_eq!(lex("a $"), Err(LexError::UnexpectedChar('$', 2)));
    assert_eq!(lex("#"), Err(LexError::UnexpectedChar('#', 0)));
    assert_eq!(lex("x\n  @"), Err(LexError::UnexpectedChar('@', 4)));
    // The offset counts characters, not bytes.
    assert_eq!(lex("\u{e9}\u{e9} ?"), Err(LexError::UnexpectedChar('?', 3)));
}

#[test]
fn escapes_decode_inside_strings() {
    assert_eq!(
        lex("\"\\n\\\"\\'\\\\\\x\""),
        Ok(vec![text("\n\"'\\x"), Token::EOF])
    );
    assert_eq!(lex("\"\""), Ok(vec![text(""), Token::EOF]));
    assert_eq!(lex("\"a b\"c"), Ok(vec![text("a b"), ident("c"), Token::EOF]));
}

#[test]
fn a_string_may_span_lines() {
    assert_eq!(lex("\"a\n  b\""), Ok(vec![text("a\n  b"), Token::EOF]));
}

#[test]
fn a_string_cut_short_is_unterminated() {
    assert_eq!(lex("\""), Err(LexError::UnterminatedString));
    assert_eq!(lex("\"abc\\"), Err(LexError::UnterminatedString));
    assert_eq!(lex("\"abc\\\""), Err(LexError::UnterminatedString));
    assert_eq!(lex("x \"abc\ny"), Err(LexError::UnterminatedString));
}

#[test]
fn floats_keep_their_digits() {
    assert_eq!(lex("3.14"), Ok(vec![float("3.14"), Token::EOF]));
    assert_eq!(lex("1."), Ok(vec![float("1."), Token::EOF]));
    assert_eq!(lex("0.50"), Ok(vec![float("0.50"), Token::EOF]));
    assert_eq!(lex(".5"), Ok(vec![Token::Dot, Token::Number(5), Token::EOF]));
    assert_eq!(
        lex("1..2"),
        Ok(vec![float("1."), Token::Dot, Token::Number(2), Token::EOF])
    );
    // The whole part of a float need not fit an integer.
    assert_eq!(
        lex("9223372036854775808.0"),
        Ok(vec![float("9223372036854775808.0"), Token::EOF])
    );
}

const FLOAT_LIMIT: &str = front_end::literal::FLOAT_LIMIT_DIGITS;

/// The decimal digits of two to the power `exponent`, least significant first.
fn power_of_two(exponent: usize) -> Vec<u8> {
    let mut digits = vec![1u8];
    for _ in 0..exponent {
        let mut carry = 0;
        for d in digits.iter_mut() {
            let doubled = *d * 2 + carry;
            *d = doubled % 10;
            carry = doubled / 10;
        }
        if carry > 0 {
            digits.push(carry);
        }
    }
    digits
}

#[test]
fn float_limit_is_half_way_to_the_next_power_of_two() {
    // 2^1024 - 2^970, by subtraction digit by digit.
    let mut digits = power_of_two(1024);
    let small = power_of_two(970);
    let mut borrow = 0;
    for i in 0..digits.len() {
        let take = borrow + if i < small.len() { small[i] } else { 0 };
        if digits[i] >= take {
            digits[i] -= take;
            borrow = 0;
        } else {
            digits[i] = digits[i] + 10 - take;
            borrow = 1;
        }
    }
    assert_eq!(borrow, 0);
    while digits.len() > 1 && *digits.last().unwrap() == 0 {
        digits.pop();
    }
    let written: String = digits.iter().rev().map(|d| (b'0' + d) as char).collect();
    assert_eq!(written, FLOAT_LIMIT);
    assert_eq!(FLOAT_LIMIT.len(), 309);
}

#[test]
fn a_float_must_be_finite() {
    let below = format!("{}1.5", &FLOAT_LIMIT[..FLOAT_LIMIT.len() - 1]);
    assert_eq!(lex(&below), Ok(vec![float(&below), Token::EOF]));
    assert!(below.parse::<f64>().unwrap().is_finite());
    assert_eq!(below.parse::<f64>().unwrap(), f64::MAX);

    let at = format!("{}.0", FLOAT_LIMIT);
    assert_eq!(lex(&at), Err(LexError::NumberOutOfRange));
    assert!(at.parse::<f64>().unwrap().is_infinite());

    let above = format!("{}3.", &FLOAT_LIMIT[..FLOAT_LIMIT.len() - 1]);
    assert_eq!(lex(&above), Err(LexError::NumberOutOfRange));

    let longer = format!("1{}.5", "0".repeat(309));
    assert_eq!(lex(&longer), Err(LexError::NumberOutOfRange));
    assert!(longer.parse::<f64>().unwrap().is_infinite());

    let shorter = format!("{}.5", "9".repeat(308));
    assert_eq!(lex(&shorter), Ok(vec![float(&shorter), Token::EOF]));
    assert!(shorter.parse::<f64>().unwrap().is_finite());

    let padded = format!("{}{}.5", "0".repeat(50), "9".repeat(308));
    assert_eq!(lex(&padded), Ok(vec![float(&padded), Token::EOF]));

    let first_digit = format!("2{}.0", "0".repeat(308));
    assert_eq!(lex(&first_digit), Err(LexError::NumberOutOfRange));
    let largest_power = format!("1{}.0", "0".repeat(308));
    assert_eq!(lex(&largest_power), Ok(vec![float(&largest_power), Token::EOF]));
    assert_eq!(largest_power.parse::<f64>().unwrap(), 1e308);
}

fn opened(tokens: &[Token]) -> usize {
    tokens.iter().filter(|t| **t == Token::Indent).count()
}

fn closed(tokens: &[Token]) -> usize {
    tokens.iter().filter(|t| **t == Token::Dedent).count()
}

#[test]
fn block_markers_pair_up() {
    let sources = [
        "",
        "a",
        "  a",
        "a\n  b",
        "a\n  b\n    c",
        "a\n  b\n    c\n  d\ne",
        "\ta\n\t\tb\n\t\t\tc\n",
        "if x\n    do\n        y\n    z\n",
        "      a\n\n\n      b",
        "a\n b\n  c\n   d\n    e",
    ];
    for source in sources {
        let tokens = lex(source).unwrap();
        assert_eq!(tokens.last(), Some(&Token::EOF));
        assert_eq!(tokens.iter().filter(|t| **t == Token::EOF).count(), 1);
        assert_eq!(opened(&tokens), closed(&tokens), "in {:?}", source);
        for k in 0..=tokens.len() {
            assert!(closed(&tokens[..k]) <= opened(&tokens[..k]));
        }
    }
}

#[test]
fn classify_looks_the_properties_up() {
    assert_eq!(
        classify('a'),
        SourceChar { ch: 'a', whitespace: false, alphabetic: true, alphanumeric: true }
    );
    assert_eq!(
        classify('7'),
        SourceChar { ch: '7', whitespace: false, alphabetic: false, alphanumeric: true }
    );
    assert_eq!(
        classify(' '),
        SourceChar { ch: ' ', whitespace: true, alphabetic: false, alphanumeric: false }
    );
    assert_eq!(
        classify('+'),
        SourceChar { ch: '+', whitespace: false, alphabetic: false, alphanumeric: false }
    );
    let classified = classify_str("a 1");
    assert_eq!(classified, vec![classify('a'), classify(' '), classify('1')]);
    assert!(classify_str("").is_empty());
}

#[test]
fn scanner_goes_by_the_properties_it_is_given() {
    let plain = |ch: char| SourceChar { ch, whitespace: false, alphabetic: false, alphanumeric: false };
    let letter = |ch: char| SourceChar { ch, whitespace: false, alphabetic: true, alphanumeric: true };
    let space = |ch: char| SourceChar { ch, whitespace: true, alphabetic: false, alphanumeric: false };
    // `x` marked as whitespace is skipped; `?` marked as a letter makes a word.
    assert_eq!(
        lex_chars(&vec![plain('1'), space('x'), letter('?'), letter('y')]),
        Ok(vec![Token::Number(1), ident("?y"), Token::EOF])
    );
    // A letter without the property is unexpected.
    assert_eq!(
        lex_chars(&vec![plain('1'), plain('x')]),
        Err(LexError::UnexpectedChar('x', 1))
    );
    // Digits and operators are recognised whatever their properties.
    assert_eq!(
        lex_chars(&vec![space('4'), space('+'), letter('2')]),
        Ok(vec![Token::Number(4), Token::Plus, Token::Number(2), Token::EOF])
    );
    assert_eq!(lex_chars(&classify_str("a + 1")), lex("a + 1"));
}

#[test]
fn cloned_tokens_are_equal() {
    let tokens = lex("x = \"s\" + 1.5 * 2\n").unwrap();
    let copies: Vec<Token> = tokens.iter().map(|t| t.clone()).collect();
    assert_eq!(tokens, copies);
}

#[test]
fn emitted_tokens_are_well_formed() {
    let reserved = ["break", "do", "if", "elif", "goto", "in", "true", "false", "nil", "for", "pkg"];
    let source = "for x in 0.5\n    total = total + x * 12. - 007 / elif_\n    if nil != 3.25 goto end";
    let tokens = lex(source).unwrap();
    let mut floats = 0;
    for token in &tokens {
        match token {
            Token::Number(n) => assert!(*n >= 0),
            Token::Float(digits) => {
                floats += 1;
                let (whole, fraction) = digits.split_once('.').unwrap();
                assert!(!whole.is_empty() && whole.chars().all(|c| c.is_ascii_digit()));
                assert!(fraction.chars().all(|c| c.is_ascii_digit()));
                assert!(digits.parse::<f64>().unwrap().is_finite());
            }
            Token::Identifier(name) => {
                assert!(!name.is_empty());
                assert!(!reserved.contains(&name.as_str()));
            }
            _ => {}
        }
    }
    assert_eq!(floats, 3);
}
