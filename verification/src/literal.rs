//! Number and string literals.
//!
//! A number is a run of digits, optionally followed by one `.` and a further,
//! possibly empty, run of digits. Without the point it is an integer and must fit a
//! signed 64-bit integer. With the point it is a floating literal, kept as written;
//! it must denote a finite double-precision number, which is the case exactly when
//! its whole part is below [`float_limit`], the number 2^1024 - 2^970.
//!
//! A string literal runs from one `"` to the next one that no backslash precedes.
//! A backslash stands with the character after it for one character of the text.

use vstd::prelude::*;
use vstd::arithmetic::power2::pow2;
use crate::float_limit::lemma_float_limit_digits_value;
use crate::run::{is_digit, lemma_run_len, run_len, scan_run, CharSet};
use crate::source::{plain_text, text_between, SourceChar};
use crate::token::{LexError, SpecToken, Token};

verus! {

/// The value of one decimal digit.
pub open spec fn digit_value(c: char) -> nat {
    (c as int - '0' as int) as nat
}

/// The number that a run of decimal digits denotes.
pub open spec fn decimal_value(digits: Seq<char>) -> nat
    decreases digits.len(),
{
    if digits.len() == 0 {
        0
    } else {
        decimal_value(digits.drop_last()) * 10 + digit_value(digits.last())
    }
}

/// Every character of `text` is a decimal digit.
pub open spec fn all_digits(text: Seq<char>) -> bool {
    forall|i: int| 0 <= i < text.len() ==> is_digit(#[trigger] text[i])
}

/// The decimal digits of [`float_limit`].
pub const FLOAT_LIMIT_DIGITS: &'static str =
    "179769313486231580793728971405303415079934132710037826936173778980444968292764750946649017977587207096330286416692887910946555547851940402630657488671505820681908902000708383676273854845817711531764475730270069855571366959622842914819860834936475292719074168444365510704342711559699508093042880177904174497792";

/// A floating literal is in range exactly when its whole part is below this number,
/// 2^1024 - 2^970. It lies half-way between the largest finite double-precision
/// number, 2^1024 - 2^971, and 2^1024, so the whole numbers from here on are the ones
/// that round to infinity.
pub open spec fn float_limit() -> nat {
    (pow2(1024) - pow2(970)) as nat
}

/// Ten to the power `n`.
pub open spec fn pow10(n: nat) -> nat
    decreases n,
{
    if n == 0 {
        1
    } else {
        10 * pow10((n - 1) as nat)
    }
}

/// What the scanner makes of a number that begins `s`: the token and the number of
/// characters it spans.
pub open spec fn number_lexeme(s: Seq<SourceChar>) -> Result<(SpecToken, nat), LexError> {
    let whole = run_len(CharSet::Digit, s);
    let value = decimal_value(plain_text(s.take(whole as int)));
    if whole < s.len() && s[whole as int].ch == '.' {
        let len = whole + 1 + run_len(CharSet::Digit, s.skip(whole + 1 as int));
        if value < float_limit() {
            Ok((SpecToken::Float(plain_text(s.take(len as int))), len))
        } else {
            Err(LexError::NumberOutOfRange)
        }
    } else {
        if value <= i64::MAX {
            Ok((SpecToken::Number(value as i64), whole))
        } else {
            Err(LexError::NumberOutOfRange)
        }
    }
}

/// An executable lexeme `r` that began at `start` is the lexeme `expected`.
pub open spec fn lexeme_is(
    r: Result<(Token, usize), LexError>,
    start: usize,
    expected: Result<(SpecToken, nat), LexError>,
) -> bool {
    match r {
        Ok((token, end)) => expected == Ok::<(SpecToken, nat), LexError>(
            (token@, (end - start) as nat),
        ) && start <= end,
        Err(e) => expected == Err::<(SpecToken, nat), LexError>(e),
    }
}

/// One more digit multiplies by ten and adds the digit.
pub proof fn lemma_decimal_push(digits: Seq<char>, c: char)
    ensures
        decimal_value(digits.push(c)) == decimal_value(digits) * 10 + digit_value(c),
{
    assert(digits.push(c).drop_last() =~= digits);
}

/// A number is at least as large as the number that any prefix of its digits denotes.
pub proof fn lemma_decimal_prefix(digits: Seq<char>, k: int)
    requires
        0 <= k <= digits.len(),
    ensures
        decimal_value(digits.take(k)) <= decimal_value(digits),
    decreases digits.len(),
{
    if k == digits.len() {
        assert(digits.take(k) =~= digits);
    } else {
        lemma_decimal_prefix(digits.drop_last(), k);
        assert(digits.drop_last().take(k) =~= digits.take(k));
    }
}

/// Zeros in front add nothing.
pub proof fn lemma_decimal_leading_zeros(digits: Seq<char>, k: int)
    requires
        0 <= k <= digits.len(),
        forall|i: int| 0 <= i < k ==> digits[i] == '0',
    ensures
        decimal_value(digits) == decimal_value(digits.skip(k)),
    decreases digits.len(),
{
    if digits.len() == 0 {
        assert(digits.skip(k) =~= digits);
    } else if k == digits.len() {
        lemma_decimal_leading_zeros(digits.drop_last(), k - 1);
        assert(digits.drop_last().skip(k - 1) =~= digits.skip(k));
    } else {
        lemma_decimal_leading_zeros(digits.drop_last(), k);
        assert(digits.skip(k).drop_last() =~= digits.drop_last().skip(k));
    }
}

/// A number of `n` digits is below `10^n`, and at least `10^(n-1)` when its first
/// digit is not zero.
pub proof fn lemma_decimal_bounds(digits: Seq<char>)
    requires
        all_digits(digits),
    ensures
        decimal_value(digits) < pow10(digits.len()),
        digits.len() > 0 && digits[0] != '0' ==> decimal_value(digits) >= pow10(
            (digits.len() - 1) as nat,
        ),
    decreases digits.len(),
{
    if digits.len() > 0 {
        let front = digits.drop_last();
        assert(is_digit(digits.last()));
        assert forall|i: int| 0 <= i < front.len() implies is_digit(#[trigger] front[i]) by {
            assert(front[i] == digits[i]);
        }
        lemma_decimal_bounds(front);
        if digits.len() > 1 {
            assert(front[0] == digits[0]);
        }
    }
}

/// Powers of ten are positive and grow with the exponent.
pub proof fn lemma_pow10_monotone(a: nat, b: nat)
    requires
        a <= b,
    ensures
        1 <= pow10(a) <= pow10(b),
    decreases b,
{
    if b > 0 {
        if a < b {
            lemma_pow10_monotone(a, (b - 1) as nat);
        } else {
            lemma_pow10_monotone((a - 1) as nat, (b - 1) as nat);
        }
    }
}

/// Of two numbers with equally many digits, the smaller is the one with the smaller
/// digit where they first differ.
pub proof fn lemma_decimal_less(small: Seq<char>, large: Seq<char>, k: int)
    requires
        small.len() == large.len(),
        all_digits(small),
        0 <= k < small.len(),
        small.take(k) == large.take(k),
        digit_value(small[k]) < digit_value(large[k]),
    ensures
        decimal_value(small) < decimal_value(large),
    decreases small.len(),
{
    let s = small.drop_last();
    let l = large.drop_last();
    assert(is_digit(small.last()));
    if k == small.len() - 1 {
        assert(s =~= small.take(k));
        assert(l =~= large.take(k));
    } else {
        assert(s.take(k) =~= small.take(k));
        assert(l.take(k) =~= large.take(k));
        assert forall|i: int| 0 <= i < s.len() implies is_digit(#[trigger] s[i]) by {
            assert(s[i] == small[i]);
        }
        lemma_decimal_less(s, l, k);
    }
}

/// The limit has 309 digits and begins with a one.
pub proof fn lemma_float_limit_digits()
    ensures
        FLOAT_LIMIT_DIGITS@.len() == 309,
        FLOAT_LIMIT_DIGITS@[0] == '1',
        all_digits(FLOAT_LIMIT_DIGITS@),
{
    reveal_strlit(
        "179769313486231580793728971405303415079934132710037826936173778980444968292764750946649017977587207096330286416692887910946555547851940402630657488671505820681908902000708383676273854845817711531764475730270069855571366959622842914819860834936475292719074168444365510704342711559699508093042880177904174497792",
    );
}

/// The digits between `from` and `to`, as characters.
pub open spec fn digits_between(source: Seq<SourceChar>, from: int, to: int) -> Seq<char> {
    plain_text(source.subrange(from, to))
}

/// Computes the integer that the digits from `from` up to `to` denote, or `None`
/// when it does not fit.
pub fn integer_between(source: &[SourceChar], from: usize, to: usize) -> (value: Option<i64>)
    requires
        from <= to <= source.len(),
        all_digits(digits_between(source@, from as int, to as int)),
    ensures
        match value {
            Some(v) => v == decimal_value(digits_between(source@, from as int, to as int)),
            None => decimal_value(digits_between(source@, from as int, to as int)) > i64::MAX,
        },
{
    let ghost digits = digits_between(source@, from as int, to as int);
    let mut value: i64 = 0;
    let mut i: usize = from;
    while i < to
        invariant
            from <= i <= to <= source.len(),
            digits == digits_between(source@, from as int, to as int),
            all_digits(digits),
            0 <= value,
            value == decimal_value(digits.take(i - from)),
        decreases to - i,
    {
        let c = source[i].ch;
        proof {
            assert(digits[i - from] == c);
            assert(is_digit(digits[i - from]));
            assert(digits.take(i - from + 1) =~= digits.take(i - from).push(c));
            lemma_decimal_push(digits.take(i - from), c);
            lemma_decimal_prefix(digits, i - from + 1);
        }
        let d: i64 = (c as u32 - '0' as u32) as i64;
        if value > (i64::MAX - d) / 10 {
            return None;
        }
        value = value * 10 + d;
        i += 1;
    }
    assert(digits.take(to - from) =~= digits);
    Some(value)
}

/// Tells whether the whole number that the digits from `from` up to `to` denote is
/// below [`float_limit`].
pub fn below_float_limit(source: &[SourceChar], from: usize, to: usize) -> (below: bool)
    requires
        from <= to <= source.len(),
        all_digits(digits_between(source@, from as int, to as int)),
    ensures
        below == (decimal_value(digits_between(source@, from as int, to as int)) < float_limit()),
{
    let ghost digits = digits_between(source@, from as int, to as int);
    let ghost limit = FLOAT_LIMIT_DIGITS@;
    let mut first: usize = from;
    while first < to && source[first].ch == '0'
        invariant
            from <= first <= to <= source.len(),
            digits == digits_between(source@, from as int, to as int),
            forall|i: int| 0 <= i < first - from ==> digits[i] == '0',
        decreases to - first,
    {
        first += 1;
    }
    let ghost significant = digits.skip(first - from);
    proof {
        lemma_float_limit_digits();
        lemma_float_limit_digits_value();
        lemma_decimal_leading_zeros(digits, first - from);
        assert forall|i: int| 0 <= i < significant.len() implies is_digit(
            #[trigger] significant[i],
        ) by {
            assert(significant[i] == digits[i + first - from]);
        }
        lemma_decimal_bounds(significant);
        lemma_decimal_bounds(limit);
        if first < to {
            assert(significant[0] == digits[first - from]);
        }
    }
    let limit_len = FLOAT_LIMIT_DIGITS.unicode_len();
    if to - first != limit_len {
        proof {
            if to - first < limit_len {
                lemma_pow10_monotone((to - first) as nat, 308);
            } else {
                lemma_pow10_monotone(309, (to - first - 1) as nat);
            }
        }
        return to - first < limit_len;
    }
    let mut i: usize = 0;
    while i < limit_len
        invariant
            limit_len == 309,
            to - first == limit_len,
            from <= first <= to <= source.len(),
            i <= limit_len,
            limit == FLOAT_LIMIT_DIGITS@,
            decimal_value(limit) == float_limit(),
            limit.len() == 309,
            all_digits(limit),
            all_digits(significant),
            significant.len() == 309,
            significant == digits_between(source@, from as int, to as int).skip(first - from),
            decimal_value(significant) == decimal_value(
                digits_between(source@, from as int, to as int),
            ),
            significant.take(i as int) == limit.take(i as int),
        decreases limit_len - i,
    {
        let a = source[first + i].ch;
        let b = FLOAT_LIMIT_DIGITS.get_char(i);
        proof {
            assert(significant[i as int] == a);
            assert(limit[i as int] == b);
            assert(is_digit(significant[i as int]));
            assert(is_digit(limit[i as int]));
        }
        if a != b {
            proof {
                if a < b {
                    lemma_decimal_less(significant, limit, i as int);
                } else {
                    lemma_decimal_less(limit, significant, i as int);
                }
            }
            return a < b;
        }
        i += 1;
        assert(significant.take(i as int) =~= significant.take(i - 1).push(a));
        assert(limit.take(i as int) =~= limit.take(i - 1).push(b));
    }
    proof {
        assert(significant.take(309) =~= significant);
        assert(limit.take(309) =~= limit);
    }
    false
}

/// Scans the number that begins at `start`.
pub fn scan_number(source: &[SourceChar], start: usize) -> (r: Result<(Token, usize), LexError>)
    requires
        start <= source.len(),
    ensures
        lexeme_is(r, start, number_lexeme(source@.skip(start as int))),
        r matches Ok((_, end)) ==> end <= source.len(),
{
    let ghost s = source@.skip(start as int);
    let whole_end = scan_run(CharSet::Digit, source, start);
    proof {
        lemma_run_len(CharSet::Digit, s);
        assert(s.take(whole_end - start) =~= source@.subrange(start as int, whole_end as int));
        assert forall|i: int| 0 <= i < whole_end - start implies is_digit(
            #[trigger] digits_between(source@, start as int, whole_end as int)[i],
        ) by {
            assert(CharSet::Digit.contains(s[i]));
        }
    }
    if whole_end < source.len() && source[whole_end].ch == '.' {
        let end = scan_run(CharSet::Digit, source, whole_end + 1);
        proof {
            assert(s[whole_end - start] == source@[whole_end as int]);
            assert(s.skip(whole_end - start + 1) =~= source@.skip(whole_end + 1));
            assert(s.take(end - start) =~= source@.subrange(start as int, end as int));
        }
        if below_float_limit(source, start, whole_end) {
            Ok((Token::Float(text_between(source, start, end)), end))
        } else {
            Err(LexError::NumberOutOfRange)
        }
    } else {
        proof {
            if whole_end < source.len() {
                assert(s[whole_end - start] == source@[whole_end as int]);
            }
        }
        match integer_between(source, start, whole_end) {
            Some(value) => Ok((Token::Number(value), whole_end)),
            None => Err(LexError::NumberOutOfRange),
        }
    }
}

/// The character that a backslash followed by `c` stands for: a newline for `n`,
/// and `c` itself otherwise, which covers the quotes and the backslash.
pub open spec fn unescape(c: char) -> char {
    if c == 'n' {
        '\n'
    } else {
        c
    }
}

/// `text` and `len` put in front of what the rest of a string literal gives.
pub open spec fn extend(text: Seq<char>, len: nat, rest: Option<(Seq<char>, nat)>) -> Option<
    (Seq<char>, nat),
> {
    match rest {
        Some((more, n)) => Some((text + more, len + n)),
        None => None,
    }
}

/// What follows the opening quote of a string literal: the text up to the closing
/// quote and the number of characters up to and including that quote, or `None`
/// when the source ends before the literal does.
pub open spec fn string_body(s: Seq<SourceChar>) -> Option<(Seq<char>, nat)>
    decreases s.len(),
{
    if s.len() == 0 {
        None
    } else if s[0].ch == '"' {
        Some((Seq::empty(), 1))
    } else if s[0].ch == '\\' {
        if s.len() == 1 {
            None
        } else {
            extend(seq![unescape(s[1].ch)], 2, string_body(s.skip(2)))
        }
    } else {
        extend(seq![s[0].ch], 1, string_body(s.skip(1)))
    }
}

/// What the scanner makes of a string literal whose opening quote begins `s`.
pub open spec fn string_lexeme(s: Seq<SourceChar>) -> Result<(SpecToken, nat), LexError> {
    match string_body(s.skip(1)) {
        Some((text, n)) => Ok((SpecToken::String(text), n + 1)),
        None => Err(LexError::UnterminatedString),
    }
}

/// A string literal that ends does so within the source.
pub proof fn lemma_string_body_len(s: Seq<SourceChar>)
    ensures
        string_body(s) matches Some((_, n)) ==> 1 <= n <= s.len(),
    decreases s.len(),
{
    if s.len() > 0 && s[0].ch != '"' {
        if s[0].ch == '\\' {
            if s.len() > 1 {
                lemma_string_body_len(s.skip(2));
            }
        } else {
            lemma_string_body_len(s.skip(1));
        }
    }
}

/// Scans the string literal whose opening quote is at `start`.
pub fn scan_string(source: &[SourceChar], start: usize) -> (r: Result<(Token, usize), LexError>)
    requires
        start < source.len(),
    ensures
        lexeme_is(r, start, string_lexeme(source@.skip(start as int))),
        r matches Ok((_, end)) ==> end <= source.len(),
{
    let ghost body = source@.skip(start as int).skip(1);
    let mut text = String::new();
    let mut i: usize = start + 1;
    assert(body =~= source@.skip(i as int));
    assert(text@ + string_body(body).unwrap().0 =~= string_body(body).unwrap().0);
    loop
        invariant
            start < i <= source.len(),
            body == source@.skip(start as int).skip(1),
            string_body(body) == extend(
                text@,
                (i - start - 1) as nat,
                string_body(source@.skip(i as int)),
            ),
        decreases source.len() - i,
    {
        let ghost rest = source@.skip(i as int);
        let ghost before = text@;
        if i >= source.len() {
            return Err(LexError::UnterminatedString);
        }
        let c = source[i].ch;
        assert(rest[0] == source@[i as int]);
        if c == '"' {
            assert(before + Seq::<char>::empty() =~= before);
            return Ok((Token::String(text), i + 1));
        }
        if c == '\\' {
            if i + 1 >= source.len() {
                return Err(LexError::UnterminatedString);
            }
            let escaped = source[i + 1].ch;
            text.push(if escaped == 'n' {
                '\n'
            } else {
                escaped
            });
            i += 2;
            proof {
                assert(rest[1] == source@[i - 1]);
                assert(rest.skip(2) =~= source@.skip(i as int));
                match string_body(source@.skip(i as int)) {
                    Some((more, n)) => {
                        assert(before + (seq![unescape(escaped)] + more) =~= text@ + more);
                    },
                    None => {},
                }
            }
        } else {
            text.push(c);
            i += 1;
            proof {
                assert(rest.skip(1) =~= source@.skip(i as int));
                match string_body(source@.skip(i as int)) {
                    Some((more, n)) => {
                        assert(before + (seq![c] + more) =~= text@ + more);
                    },
                    None => {},
                }
            }
        }
    }
}

} // verus!
