//! The digits that the scanner compares floating literals with denote the limit.
//!
//! [`float_limit`] is 2^1024 - 2^970. The scanner holds it as 309 decimal digits,
//! [`FLOAT_LIMIT_DIGITS`]. This module shows that the digits denote that number: it
//! takes them in nine parts, works out what each part denotes, and adds up.

use vstd::prelude::*;
use vstd::arithmetic::power2::{lemma2_to64, lemma_pow2_adds, pow2};
use crate::literal::{decimal_value, digit_value, float_limit, pow10, FLOAT_LIMIT_DIGITS};

verus! {

/// The number that the first `k` of `digits` denote, counted off from the front.
pub open spec fn prefix_value(digits: Seq<char>, k: nat) -> nat
    decreases k,
{
    if k == 0 {
        0
    } else {
        prefix_value(digits, (k - 1) as nat) * 10 + digit_value(digits[k - 1])
    }
}

/// Counting off from the front gives the number that the digits denote.
pub proof fn lemma_prefix_value(digits: Seq<char>, k: nat)
    requires
        k <= digits.len(),
    ensures
        prefix_value(digits, k) == decimal_value(digits.take(k as int)),
        k == digits.len() ==> prefix_value(digits, k) == decimal_value(digits),
    decreases k,
{
    if k > 0 {
        lemma_prefix_value(digits, (k - 1) as nat);
        assert(digits.take(k as int).drop_last() =~= digits.take(k - 1));
    } else {
        assert(digits.take(0).len() == 0);
    }
    if k == digits.len() {
        assert(digits.take(k as int) =~= digits);
    }
}

/// Digits written after a number shift it by a power of ten and add their own.
pub proof fn lemma_decimal_concat(front: Seq<char>, back: Seq<char>)
    ensures
        decimal_value(front + back) == decimal_value(front) * pow10(back.len()) + decimal_value(
            back,
        ),
    decreases back.len(),
{
    if back.len() == 0 {
        assert(front + back =~= front);
        assert(decimal_value(front) * 1 == decimal_value(front));
    } else {
        let shorter = back.drop_last();
        assert((front + back).drop_last() =~= front + shorter);
        assert((front + back).last() == back.last());
        lemma_decimal_concat(front, shorter);
        let x = decimal_value(front);
        let p = pow10(shorter.len());
        let y = decimal_value(shorter);
        assert(pow10(back.len()) == 10 * p);
        assert((x * p + y) * 10 == x * (10 * p) + y * 10) by (nonlinear_arith);
    }
}

/// The digits in nine parts, with the number that each part denotes.
pub open spec fn limit_parts() -> Seq<(Seq<char>, nat)> {
    seq![
        ("179769313486231580793728971405303415"@, 179769313486231580793728971405303415nat),
        ("079934132710037826936173778980444968"@, 79934132710037826936173778980444968nat),
        ("292764750946649017977587207096330286"@, 292764750946649017977587207096330286nat),
        ("416692887910946555547851940402630657"@, 416692887910946555547851940402630657nat),
        ("488671505820681908902000708383676273"@, 488671505820681908902000708383676273nat),
        ("854845817711531764475730270069855571"@, 854845817711531764475730270069855571nat),
        ("366959622842914819860834936475292719"@, 366959622842914819860834936475292719nat),
        ("074168444365510704342711559699508093"@, 74168444365510704342711559699508093nat),
        ("042880177904174497792"@, 42880177904174497792nat),
    ]
}

/// The first part denotes its number.
proof fn lemma_first_part()
    ensures
        limit_parts()[0].0.len() == 36,
        decimal_value(limit_parts()[0].0) == limit_parts()[0].1,
{
    let part = "179769313486231580793728971405303415"@;
    assert(limit_parts()[0] == (part, 179769313486231580793728971405303415nat));
    reveal_strlit("179769313486231580793728971405303415");
    lemma_prefix_value(part, 36);
    reveal_with_fuel(prefix_value, 37);
}

/// The second part denotes its number.
proof fn lemma_second_part()
    ensures
        limit_parts()[1].0.len() == 36,
        decimal_value(limit_parts()[1].0) == limit_parts()[1].1,
{
    let part = "079934132710037826936173778980444968"@;
    assert(limit_parts()[1] == (part, 79934132710037826936173778980444968nat));
    reveal_strlit("079934132710037826936173778980444968");
    lemma_prefix_value(part, 36);
    reveal_with_fuel(prefix_value, 37);
}

/// The third part denotes its number.
proof fn lemma_third_part()
    ensures
        limit_parts()[2].0.len() == 36,
        decimal_value(limit_parts()[2].0) == limit_parts()[2].1,
{
    let part = "292764750946649017977587207096330286"@;
    assert(limit_parts()[2] == (part, 292764750946649017977587207096330286nat));
    reveal_strlit("292764750946649017977587207096330286");
    lemma_prefix_value(part, 36);
    reveal_with_fuel(prefix_value, 37);
}

/// The fourth part denotes its number.
proof fn lemma_fourth_part()
    ensures
        limit_parts()[3].0.len() == 36,
        decimal_value(limit_parts()[3].0) == limit_parts()[3].1,
{
    let part = "416692887910946555547851940402630657"@;
    assert(limit_parts()[3] == (part, 416692887910946555547851940402630657nat));
    reveal_strlit("416692887910946555547851940402630657");
    lemma_prefix_value(part, 36);
    reveal_with_fuel(prefix_value, 37);
}

/// The fifth part denotes its number.
proof fn lemma_fifth_part()
    ensures
        limit_parts()[4].0.len() == 36,
        decimal_value(limit_parts()[4].0) == limit_parts()[4].1,
{
    let part = "488671505820681908902000708383676273"@;
    assert(limit_parts()[4] == (part, 488671505820681908902000708383676273nat));
    reveal_strlit("488671505820681908902000708383676273");
    lemma_prefix_value(part, 36);
    reveal_with_fuel(prefix_value, 37);
}

/// The sixth part denotes its number.
proof fn lemma_sixth_part()
    ensures
        limit_parts()[5].0.len() == 36,
        decimal_value(limit_parts()[5].0) == limit_parts()[5].1,
{
    let part = "854845817711531764475730270069855571"@;
    assert(limit_parts()[5] == (part, 854845817711531764475730270069855571nat));
    reveal_strlit("854845817711531764475730270069855571");
    lemma_prefix_value(part, 36);
    reveal_with_fuel(prefix_value, 37);
}

/// The seventh part denotes its number.
proof fn lemma_seventh_part()
    ensures
        limit_parts()[6].0.len() == 36,
        decimal_value(limit_parts()[6].0) == limit_parts()[6].1,
{
    let part = "366959622842914819860834936475292719"@;
    assert(limit_parts()[6] == (part, 366959622842914819860834936475292719nat));
    reveal_strlit("366959622842914819860834936475292719");
    lemma_prefix_value(part, 36);
    reveal_with_fuel(prefix_value, 37);
}

/// The eighth part denotes its number.
proof fn lemma_eighth_part()
    ensures
        limit_parts()[7].0.len() == 36,
        decimal_value(limit_parts()[7].0) == limit_parts()[7].1,
{
    let part = "074168444365510704342711559699508093"@;
    assert(limit_parts()[7] == (part, 74168444365510704342711559699508093nat));
    reveal_strlit("074168444365510704342711559699508093");
    lemma_prefix_value(part, 36);
    reveal_with_fuel(prefix_value, 37);
}

/// The ninth part denotes its number.
proof fn lemma_ninth_part()
    ensures
        limit_parts()[8].0.len() == 21,
        decimal_value(limit_parts()[8].0) == limit_parts()[8].1,
{
    let part = "042880177904174497792"@;
    assert(limit_parts()[8] == (part, 42880177904174497792nat));
    reveal_strlit("042880177904174497792");
    lemma_prefix_value(part, 21);
    reveal_with_fuel(prefix_value, 22);
}

/// Each part denotes the number that stands with it.
proof fn lemma_limit_parts()
    ensures
        limit_parts().len() == 9,
        forall|i: int| 0 <= i < 8 ==> (#[trigger] limit_parts()[i]).0.len() == 36,
        limit_parts()[8].0.len() == 21,
        forall|i: int|
            0 <= i < 9 ==> decimal_value((#[trigger] limit_parts()[i]).0) == limit_parts()[i].1,
{
    lemma_first_part();
    lemma_second_part();
    lemma_third_part();
    lemma_fourth_part();
    lemma_fifth_part();
    lemma_sixth_part();
    lemma_seventh_part();
    lemma_eighth_part();
    lemma_ninth_part();
}

/// The digits are the parts on end.
proof fn lemma_limit_is_its_parts()
    ensures
        FLOAT_LIMIT_DIGITS@ == limit_parts()[0].0 + limit_parts()[1].0 + limit_parts()[2].0
            + limit_parts()[3].0 + limit_parts()[4].0 + limit_parts()[5].0 + limit_parts()[6].0
            + limit_parts()[7].0 + limit_parts()[8].0,
{
    reveal_strlit(
        "179769313486231580793728971405303415079934132710037826936173778980444968292764750946649017977587207096330286416692887910946555547851940402630657488671505820681908902000708383676273854845817711531764475730270069855571366959622842914819860834936475292719074168444365510704342711559699508093042880177904174497792",
    );
    reveal_strlit("179769313486231580793728971405303415");
    reveal_strlit("079934132710037826936173778980444968");
    reveal_strlit("292764750946649017977587207096330286");
    reveal_strlit("416692887910946555547851940402630657");
    reveal_strlit("488671505820681908902000708383676273");
    reveal_strlit("854845817711531764475730270069855571");
    reveal_strlit("366959622842914819860834936475292719");
    reveal_strlit("074168444365510704342711559699508093");
    reveal_strlit("042880177904174497792");
    assert(FLOAT_LIMIT_DIGITS@ =~= limit_parts()[0].0 + limit_parts()[1].0 + limit_parts()[2].0
        + limit_parts()[3].0 + limit_parts()[4].0 + limit_parts()[5].0 + limit_parts()[6].0
        + limit_parts()[7].0 + limit_parts()[8].0);
}

/// The number that the parts up to and including part `k` denote together.
pub open spec fn limit_up_to(k: nat) -> nat
    decreases k,
{
    if k == 0 {
        limit_parts()[0].1
    } else {
        limit_up_to((k - 1) as nat) * pow10(limit_parts()[k as int].0.len()) + limit_parts()[k as int].1
    }
}

/// The digits denote the number that all of their parts denote together.
proof fn lemma_limit_from_parts()
    ensures
        decimal_value(FLOAT_LIMIT_DIGITS@) == limit_up_to(8),
{
    let p = limit_parts();
    lemma_limit_parts();
    lemma_limit_is_its_parts();
    let s1 = p[0].0 + p[1].0;
    let s2 = s1 + p[2].0;
    let s3 = s2 + p[3].0;
    let s4 = s3 + p[4].0;
    let s5 = s4 + p[5].0;
    let s6 = s5 + p[6].0;
    let s7 = s6 + p[7].0;
    lemma_decimal_concat(p[0].0, p[1].0);
    lemma_decimal_concat(s1, p[2].0);
    lemma_decimal_concat(s2, p[3].0);
    lemma_decimal_concat(s3, p[4].0);
    lemma_decimal_concat(s4, p[5].0);
    lemma_decimal_concat(s5, p[6].0);
    lemma_decimal_concat(s6, p[7].0);
    lemma_decimal_concat(s7, p[8].0);
    reveal_with_fuel(limit_up_to, 9);
}

/// Two to the powers 1024 and 970, by way of the powers in between.
proof fn lemma_powers_of_two()
    ensures
        pow2(1024) == 0x10000000000000000000000000000000000000000000000000000000000000000000000000000000000000000000000000000000000000000000000000000000000000000000000000000000000000000000000000000000000000000000000000000000000000000000000000000000000000000000000000000000000000000nat,
        pow2(970) == 0x400000000000000000000000000000000000000000000000000000000000000000000000000000000000000000000000000000000000000000000000000000000000000000000000000000000000000000000000000000000000000000000000000000000000000000000000000000000000000000000000000nat,
{
    lemma2_to64();
    lemma_pow2_adds(64, 64);
    assert(pow2(128) == 0x100000000000000000000000000000000nat);
    lemma_pow2_adds(128, 128);
    assert(pow2(256) == 0x10000000000000000000000000000000000000000000000000000000000000000nat);
    lemma_pow2_adds(256, 256);
    assert(pow2(512) == 0x100000000000000000000000000000000000000000000000000000000000000000000000000000000000000000000000000000000000000000000000000000000nat);
    lemma_pow2_adds(512, 512);
    assert(pow2(1024) == 0x10000000000000000000000000000000000000000000000000000000000000000000000000000000000000000000000000000000000000000000000000000000000000000000000000000000000000000000000000000000000000000000000000000000000000000000000000000000000000000000000000000000000000000nat);
    lemma_pow2_adds(512, 256);
    assert(pow2(768) == 0x1000000000000000000000000000000000000000000000000000000000000000000000000000000000000000000000000000000000000000000000000000000000000000000000000000000000000000000000000000000000000000000000000nat);
    lemma_pow2_adds(768, 128);
    assert(pow2(896) == 0x100000000000000000000000000000000000000000000000000000000000000000000000000000000000000000000000000000000000000000000000000000000000000000000000000000000000000000000000000000000000000000000000000000000000000000000000000000000nat);
    lemma_pow2_adds(896, 64);
    assert(pow2(960) == 0x1000000000000000000000000000000000000000000000000000000000000000000000000000000000000000000000000000000000000000000000000000000000000000000000000000000000000000000000000000000000000000000000000000000000000000000000000000000000000000000000000nat);
    lemma_pow2_adds(960, 8);
    assert(pow2(968) == 0x100000000000000000000000000000000000000000000000000000000000000000000000000000000000000000000000000000000000000000000000000000000000000000000000000000000000000000000000000000000000000000000000000000000000000000000000000000000000000000000000000nat);
    lemma_pow2_adds(968, 2);
    assert(pow2(970) == 0x400000000000000000000000000000000000000000000000000000000000000000000000000000000000000000000000000000000000000000000000000000000000000000000000000000000000000000000000000000000000000000000000000000000000000000000000000000000000000000000000000nat);
}

/// The digits that the scanner holds denote the limit for floating literals.
pub proof fn lemma_float_limit_digits_value()
    ensures
        decimal_value(FLOAT_LIMIT_DIGITS@) == float_limit(),
{
    lemma_limit_from_parts();
    lemma_powers_of_two();
    assert(pow10(36) == 1000000000000000000000000000000000000nat) by {
        reveal_with_fuel(pow10, 37);
    }
    assert(pow10(21) == 1000000000000000000000nat) by {
        reveal_with_fuel(pow10, 22);
    }
    lemma_limit_parts();
    let p = limit_parts();
    assert(limit_up_to(0) == p[0].1);
    assert(limit_up_to(1) == limit_up_to(0) * 1000000000000000000000000000000000000 + p[1].1);
    assert(limit_up_to(2) == limit_up_to(1) * 1000000000000000000000000000000000000 + p[2].1);
    assert(limit_up_to(3) == limit_up_to(2) * 1000000000000000000000000000000000000 + p[3].1);
    assert(limit_up_to(4) == limit_up_to(3) * 1000000000000000000000000000000000000 + p[4].1);
    assert(limit_up_to(5) == limit_up_to(4) * 1000000000000000000000000000000000000 + p[5].1);
    assert(limit_up_to(6) == limit_up_to(5) * 1000000000000000000000000000000000000 + p[6].1);
    assert(limit_up_to(7) == limit_up_to(6) * 1000000000000000000000000000000000000 + p[7].1);
    assert(limit_up_to(8) == limit_up_to(7) * 1000000000000000000000 + p[8].1);
}

} // verus!
