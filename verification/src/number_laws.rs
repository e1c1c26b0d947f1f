//! What numbers in text come to, digit by digit.

use crate::number::{
    all_digits, decimal_text, digit_value, digits_value, is_digit, lemma_digits_nonnegative,
    lemma_number_text, number_text, number_value, signed_decimal_text, signed_value, unsigned_value,
    within,
};
use vstd::prelude::*;

verus! {

/// Whether `s` is decimal digits, at least one.
pub open spec fn is_decimal(s: Seq<char>) -> bool {
    s.len() > 0 && forall|i: int| 0 <= i < s.len() ==> 48 <= (#[trigger] s[i]) as int <= 57
}

/// Whether `s` is hexadecimal digits, at least one.
pub open spec fn is_hex(s: Seq<char>) -> bool {
    s.len() > 0 && forall|i: int| 0 <= i < s.len() ==> is_hex_digit(#[trigger] s[i])
}

pub open spec fn is_hex_digit(c: char) -> bool {
    48 <= c as int <= 57 || 97 <= c as int <= 102 || 65 <= c as int <= 70
}

/// Decimal digits write a number and nothing else does; one more digit makes it ten times as
/// large and adds the digit.
pub proof fn law_decimal_digits(s: Seq<char>, c: char)
    ensures
        number_value(s, 10) is Some <==> is_decimal(s),
        48 <= c as int <= 57 ==> number_value(seq![c], 10) == Some(c as int - 48),
        48 <= c as int <= 57 && is_decimal(s) ==> number_value(s.push(c), 10) == Some(
            number_value(s, 10)->0 * 10 + (c as int - 48),
        ),
{
    lemma_digit_step(s, c, 10);
    if number_value(s, 10) is Some {
        assert forall|i: int| 0 <= i < s.len() implies 48 <= (#[trigger] s[i]) as int <= 57 by {
            assert(is_digit(s[i], 10));
        }
    }
}

/// Hexadecimal digits write a number and nothing else does; one more digit makes it sixteen
/// times as large and adds the digit.
pub proof fn law_hex_digits(s: Seq<char>, c: char)
    ensures
        number_value(s, 16) is Some <==> is_hex(s),
        ({
            let n = c as int;
            let d = if n <= 57 {
                n - 48
            } else if n <= 70 {
                n - 55
            } else {
                n - 87
            };
            &&& is_hex_digit(c) ==> number_value(seq![c], 16) == Some(d)
            &&& is_hex_digit(c) && is_hex(s) ==> number_value(s.push(c), 16) == Some(
                number_value(s, 16)->0 * 16 + d,
            )
        }),
{
    lemma_digit_step(s, c, 16);
    if number_value(s, 16) is Some {
        assert forall|i: int| 0 <= i < s.len() implies is_hex_digit(#[trigger] s[i]) by {
            assert(is_digit(s[i], 16));
        }
    }
}

proof fn lemma_digit_step(s: Seq<char>, c: char, base: int)
    requires
        base == 10 || base == 16,
    ensures
        is_digit(c, base) ==> number_value(seq![c], base) == Some(digit_value(c)->0),
        is_digit(c, base) && number_value(s, base) is Some ==> number_value(s.push(c), base) == Some(
            number_value(s, base)->0 * base + digit_value(c)->0,
        ),
{
    let one = seq![c];
    assert(one.drop_last() =~= Seq::<char>::empty());
    assert(digits_value(one.drop_last(), base) == 0);
    assert(0 * base == 0) by (nonlinear_arith);
    let all = s.push(c);
    assert(all.drop_last() =~= s);
    if is_digit(c, base) && number_value(s, base) is Some {
        assert forall|i: int| 0 <= i < all.len() implies is_digit(#[trigger] all[i], base) by {
            if i < s.len() {
                assert(all[i] == s[i]);
            }
        }
    }
}

/// A number is written in decimal digits that read as it, without a zero before others; and
/// digits without a zero before others are what is written for their number.
pub proof fn law_decimal_text(v: int, s: Seq<char>)
    requires
        v >= 0,
    ensures
        decimal_text(v) == s <==> is_decimal(s) && number_value(s, 10) == Some(v) && (s.len() > 1
            ==> s[0] != '0'),
{
    lemma_number_text(v, 10);
    let t = decimal_text(v);
    law_decimal_digits(t, '0');
    if is_decimal(s) && number_value(s, 10) == Some(v) && (s.len() > 1 ==> s[0] != '0') {
        lemma_one_numeral(s, v, 10);
    }
}

/// Digits without a leading zero are the text of their number.
pub proof fn lemma_one_numeral(s: Seq<char>, v: int, base: int)
    requires
        base == 10,
        s.len() > 0,
        all_digits(s, base),
        digits_value(s, base) == v,
        s.len() > 1 ==> s[0] != '0',
    ensures
        number_text(v, base) == s,
        v >= 0,
        s.len() > 1 ==> v >= base,
    decreases s.len(),
{
    lemma_digits_nonnegative(s, base);
    let p = s.drop_last();
    let c = s.last();
    assert(is_digit(s[s.len() - 1], base));
    let d = digit_value(c)->0;
    if s.len() == 1 {
        assert(p =~= Seq::<char>::empty());
        assert(digits_value(p, base) == 0);
        assert(v == d);
        assert(number_text(v, base) =~= s);
    } else {
        assert forall|i: int| 0 <= i < p.len() implies is_digit(#[trigger] p[i], base) by {
            assert(p[i] == s[i]);
        }
        assert(p[0] == s[0]);
        let u = digits_value(p, base);
        lemma_one_numeral(p, u, base);
        if p.len() == 1 {
            assert(p.drop_last() =~= Seq::<char>::empty());
            assert(digits_value(p.drop_last(), base) == 0);
            assert(p.last() == p[0]);
            assert(is_digit(p[0], base));
            assert(u == digit_value(p[0])->0);
            assert(u > 0);
        }
        assert(v == u * 10 + d);
        assert(v / 10 == u && v % 10 == d);
        assert(number_text(v, base) == number_text(u, base).push(crate::number::digit_char(d)));
        assert(number_text(v, base) =~= s);
    }
}

/// A plus sign may stand before a number without a sign, and a plus or a minus sign before one
/// with a sign; a minus sign makes it negative.
pub proof fn law_signs(s: Seq<char>)
    ensures
        is_decimal(s) ==> unsigned_value(s) == number_value(s, 10),
        is_decimal(s) ==> signed_value(s) == number_value(s, 10),
        is_decimal(s) ==> unsigned_value(seq!['+'] + s) == number_value(s, 10),
        is_decimal(s) ==> signed_value(seq!['+'] + s) == number_value(s, 10),
        is_decimal(s) ==> signed_value(seq!['-'] + s) == Some(-number_value(s, 10)->0),
        unsigned_value(s) is Some ==> is_decimal(s) || (s.len() > 0 && s[0] == '+' && is_decimal(
            s.skip(1),
        )),
        signed_value(s) is Some ==> is_decimal(s) || (s.len() > 0 && (s[0] == '+' || s[0] == '-')
            && is_decimal(s.skip(1))),
{
    law_decimal_digits(s, '0');
    law_decimal_digits(s.skip(1), '0');
    assert((seq!['+'] + s).skip(1) =~= s);
    assert((seq!['-'] + s).skip(1) =~= s);
    if is_decimal(s) {
        assert(48 <= s[0] as int <= 57);
    }
}

/// A negative number is written as a minus sign and its amount.
pub proof fn law_signed_decimal_text(v: int)
    ensures
        v >= 0 ==> signed_decimal_text(v) == decimal_text(v),
        v < 0 ==> signed_decimal_text(v) == seq!['-'] + decimal_text(-v),
{
}

/// A bound lets through the numbers in the range and no other.
pub proof fn law_within(v: Option<int>, low: int, high: int, n: int)
    ensures
        within(v, low, high) == Some(n) <==> v == Some(n) && low <= n && n <= high,
{
}

} // verus!
