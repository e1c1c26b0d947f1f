//! Numbers as text, in decimal and in hexadecimal.

use crate::text::piece;
use vstd::arithmetic::div_mod::lemma_fundamental_div_mod;
use vstd::arithmetic::power::{lemma_pow1, pow};
use vstd::prelude::*;

verus! {

/// The value of a digit in any base up to sixteen.
pub open spec fn digit_value(c: char) -> Option<int> {
    if '0' <= c <= '9' {
        Some(c as int - '0' as int)
    } else if 'a' <= c <= 'f' {
        Some(c as int - 'a' as int + 10)
    } else if 'A' <= c <= 'F' {
        Some(c as int - 'A' as int + 10)
    } else {
        None
    }
}

pub open spec fn is_digit(c: char, base: int) -> bool {
    digit_value(c) is Some && digit_value(c)->0 < base
}

pub open spec fn all_digits(s: Seq<char>, base: int) -> bool {
    forall|i: int| 0 <= i < s.len() ==> is_digit(#[trigger] s[i], base)
}

/// The number that the digits of `s` write in the given base.
pub open spec fn digits_value(s: Seq<char>, base: int) -> int
    decreases s.len(),
{
    if s.len() == 0 {
        0
    } else {
        digits_value(s.drop_last(), base) * base + digit_value(s.last())->0
    }
}

/// The number that `s` writes, where `s` is digits of the base and not empty.
pub open spec fn number_value(s: Seq<char>, base: int) -> Option<int> {
    if s.len() > 0 && all_digits(s, base) {
        Some(digits_value(s, base))
    } else {
        None
    }
}

/// The digit of a value below sixteen, letters in lower case.
pub open spec fn digit_char(v: int) -> char {
    if v < 10 {
        (v + '0' as int) as char
    } else {
        (v - 10 + 'a' as int) as char
    }
}

/// `v` in the given base, without leading zeros.
pub open spec fn number_text(v: int, base: int) -> Seq<char>
    decreases v,
    when v >= 0 && base >= 2
    via number_text_decreases
{
    if v < base {
        seq![digit_char(v)]
    } else {
        number_text(v / base, base).push(digit_char(v % base))
    }
}

#[via_fn]
proof fn number_text_decreases(v: int, base: int) {
    if v >= base {
        assert(0 <= v / base < v) by (nonlinear_arith)
            requires
                v >= base,
                base >= 2,
        ;
    }
}

pub open spec fn decimal_text(v: int) -> Seq<char> {
    number_text(v, 10)
}

/// A signed number in decimal: a minus sign stands before a negative one.
pub open spec fn signed_decimal_text(v: int) -> Seq<char> {
    if v < 0 {
        seq!['-'] + decimal_text(-v)
    } else {
        decimal_text(v)
    }
}

/// The number that `s` writes in decimal: an optional plus sign, then digits.
pub open spec fn unsigned_value(s: Seq<char>) -> Option<int> {
    if s.len() > 0 && s[0] == '+' {
        number_value(s.skip(1), 10)
    } else {
        number_value(s, 10)
    }
}

/// The number that `s` writes in decimal, with an optional sign before the digits.
pub open spec fn signed_value(s: Seq<char>) -> Option<int> {
    if s.len() > 0 && s[0] == '-' {
        match number_value(s.skip(1), 10) {
            Some(v) => Some(-v),
            None => None,
        }
    } else {
        unsigned_value(s)
    }
}

/// `v`, where it lies in the range.
pub open spec fn within(v: Option<int>, low: int, high: int) -> Option<int> {
    if v is Some && low <= v->0 <= high {
        v
    } else {
        None
    }
}

pub proof fn lemma_digits_nonnegative(s: Seq<char>, base: int)
    requires
        all_digits(s, base),
        base > 0,
    ensures
        digits_value(s, base) >= 0,
    decreases s.len(),
{
    if s.len() > 0 {
        assert forall|i: int| 0 <= i < s.drop_last().len() implies is_digit(
            #[trigger] s.drop_last()[i],
            base,
        ) by {
            assert(s[i] == s.drop_last()[i]);
        }
        lemma_digits_nonnegative(s.drop_last(), base);
        assert(is_digit(s[s.len() - 1], base));
        assert(digits_value(s.drop_last(), base) * base >= 0) by (nonlinear_arith)
            requires
                digits_value(s.drop_last(), base) >= 0,
                base > 0,
        ;
    }
}

pub proof fn lemma_digit_char(v: int, base: int)
    requires
        0 <= v < base <= 16,
    ensures
        digit_value(digit_char(v)) == Some(v),
        is_digit(digit_char(v), base),
{
}

/// What `number_text` writes is digits, and reads back as the number.
pub proof fn lemma_number_text(v: int, base: int)
    requires
        v >= 0,
        2 <= base <= 16,
    ensures
        number_text(v, base).len() > 0,
        all_digits(number_text(v, base), base),
        digits_value(number_text(v, base), base) == v,
        number_value(number_text(v, base), base) == Some(v),
        number_text(v, base).len() > 1 ==> number_text(v, base)[0] != '0',
        v > 0 ==> number_text(v, base)[0] != '0',
    decreases v,
{
    let t = number_text(v, base);
    if v < base {
        lemma_digit_char(v, base);
        assert(t.drop_last() =~= Seq::<char>::empty());
        assert(digits_value(t.drop_last(), base) == 0);
        assert(0 * base == 0);
    } else {
        assert(0 < v / base < v && 0 <= v % base < base) by (nonlinear_arith)
            requires
                v >= base,
                base >= 2,
        ;
        lemma_number_text(v / base, base);
        lemma_digit_char(v % base, base);
        let p = number_text(v / base, base);
        assert(t == p.push(digit_char(v % base)));
        assert(t.drop_last() =~= p);
        assert forall|i: int| 0 <= i < t.len() implies is_digit(#[trigger] t[i], base) by {
            if i < p.len() {
                assert(t[i] == p[i]);
            }
        }
        lemma_fundamental_div_mod(v, base);
        assert(base * (v / base) == (v / base) * base) by (nonlinear_arith);
        assert(t[0] == p[0]);
    }
}

/// A number below a power of the base has no more digits than the exponent.
pub proof fn lemma_number_text_len(v: int, base: int, n: nat)
    requires
        0 <= v < pow(base, n),
        2 <= base <= 16,
        n > 0,
    ensures
        number_text(v, base).len() <= n,
    decreases n,
{
    if v >= base {
        if n == 1 {
            lemma_pow1(base);
        } else {
            reveal(pow);
            let m = (n - 1) as nat;
            assert(pow(base, n) == base * pow(base, m));
            assert(0 <= v / base < pow(base, m)) by (nonlinear_arith)
                requires
                    0 <= v < base * pow(base, m),
                    base >= 2,
            ;
            lemma_number_text_len(v / base, base, m);
        }
    }
}

fn digit_of(c: char) -> (res: Option<u8>)
    ensures
        match res {
            Some(v) => digit_value(c) == Some(v as int),
            None => digit_value(c) is None,
        },
        res matches Some(v) ==> v < 16,
{
    if '0' <= c && c <= '9' {
        Some((c as u8) - 48)
    } else if 'a' <= c && c <= 'f' {
        Some((c as u8) - 87)
    } else if 'A' <= c && c <= 'F' {
        Some((c as u8) - 55)
    } else {
        None
    }
}

/// The number that `s` writes in the given base, where it is at most `max`.
pub fn read_number(s: &[char], base: u8, max: u64) -> (res: Option<u64>)
    requires
        2 <= base <= 16,
    ensures
        match res {
            Some(v) => number_value(s@, base as int) == Some(v as int) && v <= max,
            None => within(number_value(s@, base as int), 0, max as int) is None,
        },
{
    if s.len() == 0 {
        return None;
    }
    let limit: u128 = max as u128;
    let radix: u128 = base as u128;
    let mut value: u128 = 0;
    let mut i: usize = 0;
    let mut too_large: bool = false;
    while i < s.len()
        invariant
            i <= s@.len(),
            s@.len() > 0,
            2 <= base <= 16,
            radix == base,
            limit == max,
            all_digits(s@.take(i as int), base as int),
            !too_large ==> value == digits_value(s@.take(i as int), base as int) && value <= limit,
            too_large ==> digits_value(s@.take(i as int), base as int) > limit,
        decreases s@.len() - i,
    {
        let ghost before = s@.take(i as int);
        let ghost after = s@.take(i + 1);
        proof {
            assert(after.drop_last() =~= before);
            assert(after.last() == s@[i as int]);
            lemma_digits_nonnegative(before, base as int);
        }
        match digit_of(s[i]) {
            Some(d) if d < base => {
                proof {
                    assert forall|j: int| 0 <= j < after.len() implies is_digit(
                        #[trigger] after[j],
                        base as int,
                    ) by {
                        if j < i {
                            assert(after[j] == before[j]);
                        }
                    }
                    let v = digits_value(before, base as int);
                    assert(v * base >= v) by (nonlinear_arith)
                        requires
                            v >= 0,
                            base >= 2,
                    ;
                    if !too_large {
                        assert(value * radix <= u64::MAX * 16) by (nonlinear_arith)
                            requires
                                value <= u64::MAX,
                                radix <= 16,
                        ;
                    }
                }
                if !too_large {
                    value = value * radix + d as u128;
                    if value > limit {
                        too_large = true;
                    }
                }
            },
            _ => {
                proof {
                    assert(!is_digit(s@[i as int], base as int));
                }
                return None;
            },
        }
        i += 1;
    }
    assert(s@.take(i as int) =~= s@);
    if too_large {
        None
    } else {
        Some(value as u64)
    }
}

/// The number that `s` writes in decimal, where it is at most `max`.
pub fn read_unsigned(s: &[char], max: u64) -> (res: Option<u64>)
    ensures
        match res {
            Some(v) => within(unsigned_value(s@), 0, max as int) == Some(v as int),
            None => within(unsigned_value(s@), 0, max as int) is None,
        },
{
    if s.len() > 0 && s[0] == '+' {
        let rest = piece(s, 1, s.len());
        assert(rest@ =~= s@.skip(1));
        read_number(&rest, 10, max)
    } else {
        read_number(s, 10, max)
    }
}

/// The `i32` that `s` writes in decimal.
pub fn read_i32(s: &[char]) -> (res: Option<i32>)
    ensures
        match res {
            Some(v) => signed_value(s@) == Some(v as int),
            None => within(signed_value(s@), i32::MIN as int, i32::MAX as int) is None,
        },
{
    if s.len() > 0 && s[0] == '-' {
        let rest = piece(s, 1, s.len());
        assert(rest@ =~= s@.skip(1));
        proof {
            if all_digits(rest@, 10) {
                lemma_digits_nonnegative(rest@, 10);
            }
        }
        match read_number(&rest, 10, 2147483648) {
            Some(v) => Some((0 - (v as i64)) as i32),
            None => None,
        }
    } else {
        proof {
            if all_digits(s@, 10) {
                lemma_digits_nonnegative(s@, 10);
            }
            if s@.len() > 0 && all_digits(s@.skip(1), 10) {
                lemma_digits_nonnegative(s@.skip(1), 10);
            }
        }
        match read_unsigned(s, 2147483647) {
            Some(v) => Some(v as i32),
            None => None,
        }
    }
}

fn digit_for(v: u8) -> (res: char)
    requires
        v < 16,
    ensures
        res == digit_char(v as int),
{
    if v < 10 {
        (v + 48) as char
    } else {
        (v - 10 + 97) as char
    }
}

/// `v` in the given base.
pub fn write_number(v: u64, base: u8) -> (res: Vec<char>)
    requires
        2 <= base <= 16,
    ensures
        res@ == number_text(v as int, base as int),
    decreases v,
{
    let radix: u64 = base as u64;
    if v < radix {
        let mut res: Vec<char> = Vec::new();
        res.push(digit_for(v as u8));
        assert(res@ =~= number_text(v as int, base as int));
        res
    } else {
        proof {
            assert(0 < v / radix < v && v % radix < radix) by (nonlinear_arith)
                requires
                    v >= radix,
                    radix >= 2,
            ;
        }
        let mut res = write_number(v / radix, base);
        res.push(digit_for((v % radix) as u8));
        res
    }
}

/// `v` in decimal.
pub fn write_decimal(v: u64) -> (res: Vec<char>)
    ensures
        res@ == decimal_text(v as int),
{
    write_number(v, 10)
}

/// `v` in decimal, with a minus sign where it is negative.
pub fn write_signed(v: i64) -> (res: Vec<char>)
    ensures
        res@ == signed_decimal_text(v as int),
{
    if v < 0 {
        let magnitude: u64 = (0 - (v as i128)) as u64;
        let digits = write_number(magnitude, 10);
        let mut res: Vec<char> = Vec::new();
        res.push('-');
        let mut i: usize = 0;
        while i < digits.len()
            invariant
                i <= digits@.len(),
                res@ == seq!['-'] + digits@.take(i as int),
            decreases digits@.len() - i,
        {
            res.push(digits[i]);
            i += 1;
            assert(digits@.take(i as int) =~= digits@.take(i - 1).push(digits@[i - 1]));
        }
        assert(digits@.take(i as int) =~= digits@);
        res
    } else {
        write_number(v as u64, 10)
    }
}

} // verus!
